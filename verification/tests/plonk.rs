use starkom::assignment::Assignment;
use starkom::builder::{CircuitBuilder, CircuitView};
use starkom::cell::Cell;
use starkom::expr::Constraint;
use starkom::field::{from_const, Scalar};
use starkom::ops::var;
use starkom::pcs::{HashBackend, Poseidon1Hash, Poseidon2Hash, Sha2Hash};
use starkom::plonk::{Circuit, CompilationOptions, ProvingOptions};
use starkom::witness::{CellOrUnconstrained, Witness, WitnessView};

/// Writes inputs to the first cells of the next row.
fn copy_inputs<const N: usize>(
    witness: &mut Witness,
    row: &mut usize,
    inputs: [CellOrUnconstrained; N],
) -> [Cell; N] {
    let cells = std::array::from_fn(|i| Cell::new(*row, i));
    for i in 0..N {
        let value = witness.get(inputs[i]);
        witness.set(cells[i], value);
    }
    *row += 1;
    cells
}

/// Writes inputs to the first cells of the next row and the value of an expression to another cell
/// of that row.
fn set_output<const N: usize>(
    witness: &mut Witness,
    row: &mut usize,
    output: Constraint<Scalar>,
    expression: Constraint<Scalar>,
    inputs: [CellOrUnconstrained; N],
) -> Cell {
    let cells = copy_inputs(witness, row, inputs);
    let variables = expression.get_free_variables();
    let mut assignment = Assignment::new();
    for variable in variables {
        let value = witness.get(cells[variable.column_index()].into());
        assignment.insert(variable, value);
    }
    let cell = Cell::new(*row - 1, output.get_variable().unwrap().column_index());
    witness.set(cell, expression.evaluate(&assignment));
    cell
}

fn find(list: &Vec<(Cell, Scalar)>, cell: Cell) -> Scalar {
    list.iter().find(|entry| entry.0 == cell).unwrap().1
}

fn cell(row: usize, column: usize) -> Cell {
    Cell::new(row, column)
}

// This function tests the circuit from Vitalik's PLONK tutorial,
// https://vitalik.eth.limo/general/2019/09/22/plonk.html#how-plonk-works.
fn test_vitalik_circuit_impl<H: HashBackend>(
    canonicalize_constraints: bool,
    blowup_log2: usize,
) -> Result<(), String> {
    let mut builder = CircuitBuilder::default();
    builder.add_gate(0, (var(0) ^ 2) - var(1));
    builder.connect(cell(0, 0).into(), cell(1, 0).into());
    builder.connect(cell(0, 1).into(), cell(1, 1).into());
    builder.add_gate(1, var(0) * var(1) + var(0) + 5 - var(2));
    builder.connect(cell(0, 0).into(), cell(2, 0).into());
    builder.connect(cell(1, 2).into(), cell(2, 1).into());
    builder.add_gate(2, Constraint::nop());
    builder.declare_public_rows(&vec![2]);
    let circuit = builder.build(CompilationOptions {
        canonicalize_constraints,
    }).map_err(|error| error.to_string())?;
    assert_eq!(circuit.num_rows(), 3);
    assert_eq!(circuit.degree_bound(), 8);
    assert_eq!(circuit.num_columns(), 3);
    let mut witness = circuit.make_witness();
    assert_eq!(witness.num_rows(), 3);
    assert_eq!(witness.degree_bound(), 8);
    assert_eq!(witness.num_columns(), 3);
    witness.set(cell(0, 0), from_const(3));
    witness.set(cell(0, 1), from_const(9));
    witness.set(cell(1, 0), from_const(3));
    witness.set(cell(1, 1), from_const(9));
    witness.set(cell(1, 2), from_const(35));
    witness.set(cell(2, 0), from_const(3));
    witness.set(cell(2, 1), from_const(35));
    assert!(circuit.check_witness(&witness).is_ok());
    let options = ProvingOptions { blowup_log2 };
    let proof = circuit.prove::<H>(witness, options).map_err(|error| format!("{:?}", error))?;
    assert_eq!(proof.degree_bound(), 8);
    assert_eq!(proof.blowup_log2(), blowup_log2);
    assert_eq!(proof.extended_domain_size(), 8 << blowup_log2);
    assert_eq!(proof.num_polys(), 13);
    let public_inputs = circuit.verify(&proof, options).map_err(|error| format!("{:?}", error))?;
    assert_eq!(find(&public_inputs, cell(2, 0)), from_const(3));
    assert_eq!(find(&public_inputs, cell(2, 1)), from_const(35));
    Ok(())
}

#[test]
fn test_vitalik_circuit_sha2_blowup_2() {
    assert!(test_vitalik_circuit_impl::<Sha2Hash>(false, 1).is_ok());
    assert!(test_vitalik_circuit_impl::<Sha2Hash>(true, 1).is_ok());
}

#[test]
fn test_vitalik_circuit_poseidon1_blowup_2() {
    assert!(test_vitalik_circuit_impl::<Poseidon1Hash>(false, 1).is_ok());
    assert!(test_vitalik_circuit_impl::<Poseidon1Hash>(true, 1).is_ok());
}

#[test]
fn test_vitalik_circuit_poseidon2_blowup_2() {
    assert!(test_vitalik_circuit_impl::<Poseidon2Hash>(false, 1).is_ok());
    assert!(test_vitalik_circuit_impl::<Poseidon2Hash>(true, 1).is_ok());
}

#[test]
fn test_vitalik_circuit_sha2_blowup_4() {
    assert!(test_vitalik_circuit_impl::<Sha2Hash>(false, 2).is_ok());
    assert!(test_vitalik_circuit_impl::<Sha2Hash>(true, 2).is_ok());
}

#[test]
fn test_vitalik_circuit_poseidon1_blowup_4() {
    assert!(test_vitalik_circuit_impl::<Poseidon1Hash>(false, 2).is_ok());
    assert!(test_vitalik_circuit_impl::<Poseidon1Hash>(true, 2).is_ok());
}

#[test]
fn test_vitalik_circuit_poseidon2_blowup_4() {
    assert!(test_vitalik_circuit_impl::<Poseidon2Hash>(false, 2).is_ok());
    assert!(test_vitalik_circuit_impl::<Poseidon2Hash>(true, 2).is_ok());
}

#[test]
fn test_vitalik_circuit_sha2_blowup_8() {
    assert!(test_vitalik_circuit_impl::<Sha2Hash>(false, 3).is_ok());
    assert!(test_vitalik_circuit_impl::<Sha2Hash>(true, 3).is_ok());
}

#[test]
fn test_vitalik_circuit_poseidon1_blowup_8() {
    assert!(test_vitalik_circuit_impl::<Poseidon1Hash>(false, 3).is_ok());
    assert!(test_vitalik_circuit_impl::<Poseidon1Hash>(true, 3).is_ok());
}

#[test]
fn test_vitalik_circuit_poseidon2_blowup_8() {
    assert!(test_vitalik_circuit_impl::<Poseidon2Hash>(false, 3).is_ok());
    assert!(test_vitalik_circuit_impl::<Poseidon2Hash>(true, 3).is_ok());
}

fn test_vitalik_circuit_with_auto_gates_impl<H: HashBackend>(
    canonicalize_constraints: bool,
    blowup_log2: usize,
) -> Result<(), String> {
    let mut builder = CircuitBuilder::default();
    let [x, square] = builder.auto_gate((var(0) ^ 2) - var(1), []);
    let [result] = builder.auto_gate(
        var(0) * var(1) + var(0) + 5 - var(2),
        [x.into(), square.into()],
    );
    let [_, result] = builder.add_nop_gate([x.into(), result.into()]);
    builder.declare_public_rows(&vec![result.row()]);
    let circuit = builder.build(CompilationOptions {
        canonicalize_constraints,
    }).map_err(|error| error.to_string())?;
    assert_eq!(circuit.num_rows(), 3);
    assert_eq!(circuit.degree_bound(), 8);
    assert_eq!(circuit.num_columns(), 3);
    let mut witness = circuit.make_witness();
    assert_eq!(witness.num_rows(), 3);
    assert_eq!(witness.degree_bound(), 8);
    assert_eq!(witness.num_columns(), 3);
    let mut row = 0;
    let square = set_output(&mut witness, &mut row, var(1), var(0) ^ 2, [from_const(3).into()]);
    let result = set_output(
        &mut witness,
        &mut row,
        var(2),
        var(0) * var(1) + var(0) + 5,
        [x.into(), square.into()],
    );
    let [x, result] = copy_inputs(&mut witness, &mut row, [x.into(), result.into()]);
    assert!(circuit.check_witness(&witness).is_ok());
    let options = ProvingOptions { blowup_log2 };
    let proof = circuit.prove::<H>(witness, options).map_err(|error| format!("{:?}", error))?;
    assert_eq!(proof.degree_bound(), 8);
    assert_eq!(proof.blowup_log2(), blowup_log2);
    assert_eq!(proof.extended_domain_size(), 8 << blowup_log2);
    assert_eq!(proof.num_polys(), 13);
    let public_inputs = circuit.verify(&proof, options).map_err(|error| format!("{:?}", error))?;
    assert_eq!(find(&public_inputs, x), from_const(3));
    assert_eq!(find(&public_inputs, result), from_const(35));
    Ok(())
}

#[test]
fn test_vitalik_circuit_with_auto_gates_blowup_2() {
    assert!(test_vitalik_circuit_with_auto_gates_impl::<Sha2Hash>(false, 1).is_ok());
    assert!(test_vitalik_circuit_with_auto_gates_impl::<Sha2Hash>(true, 1).is_ok());
}

#[test]
fn test_vitalik_circuit_with_auto_gates_blowup_4() {
    assert!(test_vitalik_circuit_with_auto_gates_impl::<Sha2Hash>(false, 2).is_ok());
    assert!(test_vitalik_circuit_with_auto_gates_impl::<Sha2Hash>(true, 2).is_ok());
}

/// A slight variation of Vitalik's circuit. This one proves knowledge of three numbers x, y,
/// and z such that x^3 + xy + 5 = z. Valid combinations are (3, 4, 44) and (4, 3, 81).
fn test_vitalik_circuit_variation_impl<H: HashBackend>(
    canonicalize_constraints: bool,
    blowup_log2: usize,
) -> Result<(), String> {
    let mut builder = CircuitBuilder::default();
    let [x, square] = builder.auto_gate((var(0) ^ 2) - var(1), []);
    let [y, mul] = builder.auto_gate(var(0) * var(1) - var(2), [x.into()]);
    let [result] = builder.auto_gate(
        var(0) * var(1) + var(2) + 5 - var(3),
        [x.into(), square.into(), mul.into()],
    );
    let [_, _, result] = builder.add_nop_gate([x.into(), y.into(), result.into()]);
    builder.declare_public_rows(&vec![result.row()]);
    let circuit = builder.build(CompilationOptions {
        canonicalize_constraints,
    }).map_err(|error| error.to_string())?;
    assert_eq!(circuit.num_rows(), 4);
    assert_eq!(circuit.degree_bound(), 8);
    assert_eq!(circuit.num_columns(), 4);
    let mut witness = circuit.make_witness();
    assert_eq!(witness.num_rows(), 4);
    assert_eq!(witness.degree_bound(), 8);
    assert_eq!(witness.num_columns(), 4);
    let mut row = 0;
    let square = set_output(&mut witness, &mut row, var(1), var(0) ^ 2, [from_const(3).into()]);
    let mul = set_output(
        &mut witness,
        &mut row,
        var(2),
        var(0) * var(1),
        [from_const(3).into(), from_const(4).into()],
    );
    let result = set_output(
        &mut witness,
        &mut row,
        var(3),
        var(0) * var(1) + var(2) + 5,
        [x.into(), square.into(), mul.into()],
    );
    let [x, y, result] = copy_inputs(&mut witness, &mut row, [x.into(), y.into(), result.into()]);
    assert!(circuit.check_witness(&witness).is_ok());
    let options = ProvingOptions { blowup_log2 };
    let proof = circuit.prove::<H>(witness, options).map_err(|error| format!("{:?}", error))?;
    assert_eq!(proof.degree_bound(), 8);
    assert_eq!(proof.blowup_log2(), blowup_log2);
    assert_eq!(proof.extended_domain_size(), 8 << blowup_log2);
    assert_eq!(proof.num_polys(), 17);
    let public_inputs = circuit.verify(&proof, options).map_err(|error| format!("{:?}", error))?;
    assert_eq!(find(&public_inputs, x), from_const(3));
    assert_eq!(find(&public_inputs, y), from_const(4));
    assert_eq!(find(&public_inputs, result), from_const(44));
    Ok(())
}

#[test]
fn test_vitalik_circuit_variation_blowup_2() {
    test_vitalik_circuit_variation_impl::<Sha2Hash>(true, 1).unwrap();
    assert!(test_vitalik_circuit_variation_impl::<Sha2Hash>(false, 1).is_ok());
    assert!(test_vitalik_circuit_variation_impl::<Sha2Hash>(true, 1).is_ok());
}

#[test]
fn test_vitalik_circuit_variation_blowup_4() {
    assert!(test_vitalik_circuit_variation_impl::<Sha2Hash>(false, 2).is_ok());
    assert!(test_vitalik_circuit_variation_impl::<Sha2Hash>(true, 2).is_ok());
}

fn build_vitalik_circuit() -> Circuit {
    let mut builder = CircuitBuilder::default();
    builder.add_gate(0, (var(0) ^ 2) - var(1));
    builder.connect(cell(0, 0).into(), cell(1, 0).into());
    builder.connect(cell(0, 1).into(), cell(1, 1).into());
    builder.add_gate(1, var(0) * var(1) + var(0) + 5 - var(2));
    builder.connect(cell(0, 0).into(), cell(2, 0).into());
    builder.connect(cell(1, 2).into(), cell(2, 1).into());
    builder.add_gate(2, Constraint::nop());
    builder.declare_public_rows(&vec![2]);
    builder
        .build(CompilationOptions {
            canonicalize_constraints: false,
        })
        .unwrap()
}

#[test]
fn test_check_witness_detects_wrong_number_of_rows() {
    let circuit = build_vitalik_circuit();
    let witness = Witness::new(4, 3, &vec![0, 1]);
    let error = circuit.check_witness(&witness).unwrap_err();
    assert!(error.to_string().contains("wrong number of rows"));
}

#[test]
fn test_check_witness_detects_wrong_number_of_columns() {
    let circuit = build_vitalik_circuit();
    let witness = Witness::new(3, 4, &vec![0, 1]);
    let error = circuit.check_witness(&witness).unwrap_err();
    assert!(error.to_string().contains("wrong number of columns"));
}

#[test]
fn test_check_witness_detects_wrong_degree_bound() {
    let circuit = build_vitalik_circuit();
    let witness = Witness::new(3, 3, &vec![-2, -1, 0, 1, 2]);
    let error = circuit.check_witness(&witness).unwrap_err();
    assert!(error.to_string().contains("incorrect degree bound"));
}

#[test]
fn test_check_witness_detects_gate_constraint_violation() {
    let circuit = build_vitalik_circuit();
    let mut witness = circuit.make_witness();
    witness.set(cell(0, 0), from_const(3));
    witness.set(cell(0, 1), from_const(10));
    witness.set(cell(1, 0), from_const(3));
    witness.set(cell(1, 1), from_const(9));
    witness.set(cell(1, 2), from_const(35));
    witness.set(cell(2, 0), from_const(3));
    witness.set(cell(2, 1), from_const(35));
    let error = circuit.check_witness(&witness).unwrap_err();
    assert!(error.to_string().contains("gate constraint"));
}

#[test]
fn test_check_witness_detects_direct_wire_constraint_violation() {
    let circuit = build_vitalik_circuit();
    let mut witness = circuit.make_witness();
    witness.set(cell(0, 0), from_const(3));
    witness.set(cell(0, 1), from_const(9));
    witness.set(cell(1, 0), from_const(4));
    witness.set(cell(1, 1), from_const(9));
    witness.set(cell(1, 2), from_const(45));
    witness.set(cell(2, 0), from_const(3));
    witness.set(cell(2, 1), from_const(45));
    let error = circuit.check_witness(&witness).unwrap_err();
    assert!(error.to_string().contains("wire constraint violated"));
}

#[test]
fn test_check_witness_detects_transitive_wire_constraint_violation() {
    let circuit = build_vitalik_circuit();
    let mut witness = circuit.make_witness();
    witness.set(cell(0, 0), from_const(3));
    witness.set(cell(0, 1), from_const(9));
    witness.set(cell(1, 0), from_const(3));
    witness.set(cell(1, 1), from_const(9));
    witness.set(cell(1, 2), from_const(35));
    witness.set(cell(2, 0), from_const(99));
    witness.set(cell(2, 1), from_const(35));
    let error = circuit.check_witness(&witness).unwrap_err();
    assert!(error.to_string().contains("wire constraint violated"));
}
