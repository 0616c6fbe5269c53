use starkom::builder::{CircuitBuilder, CircuitView};
use starkom::cell::Cell;
use starkom::checking::WitnessError;
use starkom::chip::Chip;
use starkom::expr::Constraint;
use starkom::field::{from_const, Field, Scalar};
use starkom::ops::{rvar, var};
use starkom::pcs::{Poseidon2Hash, Sha2Hash};
use starkom::plonk::{
    num_quotient_chunks, quotient_degree_bound, BuildError, Circuit, CompilationOptions,
    ProvingOptions, OPTIONS_DEFAULT_BLOWUP_LOG2,
};
use starkom::proving::ProvingError;
use starkom::verifying::VerificationError;
use starkom::witness::{CellOrUnconstrained, Witness, WitnessView};

fn cell(row: usize, column: usize) -> Cell {
    Cell::new(row, column)
}

/// The cells of the first column are Fibonacci numbers.
fn fibonacci_circuit(public_row: usize) -> Circuit {
    let mut builder = CircuitBuilder::new();
    for i in 0..4 {
        builder.add_gate(i, rvar(0, 0) + rvar(0, 1) - rvar(0, 2));
    }
    builder.declare_public_rows(&vec![public_row, 0]);
    builder.build(CompilationOptions::default()).unwrap()
}

fn fibonacci_witness(circuit: &Circuit) -> Witness {
    let mut witness = circuit.make_witness();
    let mut pair = (1, 1);
    for i in 0..6 {
        witness.set(cell(i, 0), from_const(pair.0));
        pair = (pair.1, pair.0 + pair.1);
    }
    witness
}

/// Two squares in different columns, which are connected.
fn squares_circuit() -> Circuit {
    let mut builder = CircuitBuilder::new();
    builder.sub_fn(0, 0, 2, |view| view.add_gate(0, (var(0) ^ 2) - var(1)));
    builder.sub_fn(0, 2, 2, |view| view.add_gate(0, (var(0) ^ 2) - var(1)));
    builder.connect(Some(cell(0, 1)), Some(cell(0, 2)));
    builder.build(CompilationOptions::default()).unwrap()
}

fn squares_witness(circuit: &Circuit, values: [u64; 4]) -> Witness {
    let mut witness = circuit.make_witness();
    for i in 0..4 {
        witness.set(cell(0, i), from_const(values[i]));
    }
    witness
}

#[test]
fn test_default_options() {
    assert!(!CompilationOptions::default().canonicalize_constraints);
    assert_eq!(
        ProvingOptions::default().blowup_log2,
        OPTIONS_DEFAULT_BLOWUP_LOG2
    );
}

#[test]
fn test_quotient_sizes() {
    assert_eq!(quotient_degree_bound(8, 3, 2), 21);
    assert_eq!(quotient_degree_bound(8, 1, 2), 14);
    assert_eq!(num_quotient_chunks(8, 3, 2), 3);
    assert_eq!(num_quotient_chunks(8, 1, 2), 2);
}

#[test]
fn test_proof_with_rotations() {
    let circuit = fibonacci_circuit(5);
    assert_eq!(circuit.num_rows(), 6);
    assert_eq!(circuit.num_columns(), 1);
    assert_eq!(*circuit.public_rows(), vec![0, 5]);
    let witness = fibonacci_witness(&circuit);
    assert!(circuit.check_witness(&witness).is_ok());
    let options = ProvingOptions { blowup_log2: 2 };
    let proof = circuit.prove::<Sha2Hash>(witness, options).unwrap();
    assert_eq!(proof.degree_bound(), 16);
    assert_eq!(proof.num_polys(), 1 + 1 + 1 + 1 + 1);
    let values = circuit.verify(&proof, options).unwrap();
    assert_eq!(
        values,
        vec![(cell(0, 0), from_const(1)), (cell(5, 0), from_const(8))]
    );
}

#[test]
fn test_compressed_circuit() {
    let circuit = squares_circuit();
    let options = ProvingOptions { blowup_log2: 1 };
    let witness = squares_witness(&circuit, [3, 9, 9, 81]);
    assert!(circuit.check_witness(&witness).is_ok());
    let proof = circuit.prove::<Poseidon2Hash>(witness, options).unwrap();
    let compressed = circuit.as_compressed::<Poseidon2Hash>(options);
    assert_eq!(compressed.num_rows(), 1);
    assert_eq!(compressed.degree_bound(), 4);
    assert_eq!(compressed.num_columns(), 4);
    assert!(compressed.public_rows().is_empty());
    assert!(compressed.verify(&proof).unwrap().is_empty());
    let compressed = circuit.to_compressed::<Poseidon2Hash>(options);
    assert!(compressed.verify(&proof).is_ok());
}

#[test]
fn test_prove_blinded() {
    let circuit = squares_circuit();
    let options = ProvingOptions { blowup_log2: 1 };
    let witness = squares_witness(&circuit, [3, 9, 9, 81]);
    let proof = circuit.prove_blinded::<Sha2Hash>(&witness, options).unwrap();
    assert!(circuit.verify(&proof, options).is_ok());
}

#[test]
fn test_gate_violation_is_not_proved() {
    let circuit = squares_circuit();
    let witness = squares_witness(&circuit, [3, 9, 9, 82]);
    let error = circuit.check_witness(&witness).unwrap_err();
    assert_eq!(
        error.to_string(),
        "gate constraint `var(0) ^ 2 + -1 * var(1)` violated at row 0, column 2"
    );
    let options = ProvingOptions { blowup_log2: 1 };
    let error = circuit.prove::<Sha2Hash>(witness, options).err().unwrap();
    assert_eq!(error, ProvingError::ConstraintViolation);
    assert_eq!(error.to_string(), "non-zero remainder in division by (x^n - 1)");
}

#[test]
fn test_wire_violation_is_not_proved() {
    let circuit = squares_circuit();
    let witness = squares_witness(&circuit, [3, 9, 8, 64]);
    let error = circuit.check_witness(&witness).unwrap_err();
    assert_eq!(
        error.to_string(),
        "wire constraint violated: cell(0, 1) = 0x0000000000000000000000000000000000000000000000000000000000000009, cell(0, 2) = 0x0000000000000000000000000000000000000000000000000000000000000008"
    );
    let options = ProvingOptions { blowup_log2: 1 };
    let error = circuit.prove::<Sha2Hash>(witness, options).err().unwrap();
    assert_eq!(error, ProvingError::Wraparound);
    assert_eq!(error.to_string(), "permutation accumulator wraparound check failed");
}

#[test]
fn test_wrong_dimensions_are_not_proved() {
    let circuit = squares_circuit();
    let options = ProvingOptions { blowup_log2: 1 };
    let prove = |witness| circuit.prove::<Sha2Hash>(witness, options).err().unwrap().to_string();
    assert_eq!(
        prove(Witness::new(2, 4, &vec![])),
        "incorrect witness size (got 2 rows, want 1)"
    );
    assert_eq!(
        prove(Witness::new(1, 4, &vec![2])),
        "incorrect witness degree bound (got 8, want 4)"
    );
    assert_eq!(
        prove(Witness::new(1, 3, &vec![])),
        "incorrect witness size (got 3 columns, want 4)"
    );
}

#[test]
fn test_check_witness_texts() {
    let circuit = squares_circuit();
    let check = |witness| circuit.check_witness(&witness).unwrap_err();
    assert!(matches!(
        check(Witness::new(2, 4, &vec![])),
        WitnessError::Rows { got: 2, want: 1 }
    ));
    assert_eq!(
        check(Witness::new(1, 3, &vec![])).to_string(),
        "wrong number of columns: got 3, want 4"
    );
    assert_eq!(
        check(Witness::new(1, 4, &vec![2])).to_string(),
        "incorrect degree bound: got 8, want 4"
    );
}

#[test]
fn test_proof_for_another_circuit_is_rejected() {
    let circuit = fibonacci_circuit(5);
    let options = ProvingOptions { blowup_log2: 1 };
    let witness = fibonacci_witness(&circuit);
    let proof = circuit.prove::<Sha2Hash>(witness, options).unwrap();
    let error = squares_circuit().verify(&proof, options).unwrap_err();
    assert!(matches!(error, VerificationError::CircuitCommitment { .. }));
    assert!(error.to_string().starts_with("wrong circuit commitment (got 0x"));
}

#[test]
fn test_other_options_are_rejected() {
    let circuit = fibonacci_circuit(5);
    let witness = fibonacci_witness(&circuit);
    let proof = circuit
        .prove::<Sha2Hash>(witness, ProvingOptions { blowup_log2: 1 })
        .unwrap();
    let error = circuit
        .verify(&proof, ProvingOptions { blowup_log2: 2 })
        .unwrap_err();
    assert!(matches!(error, VerificationError::CircuitCommitment { .. }));
}

#[test]
fn test_missing_public_row_is_rejected() {
    let circuit = fibonacci_circuit(5);
    let options = ProvingOptions { blowup_log2: 1 };
    let proof = circuit
        .prove::<Sha2Hash>(fibonacci_witness(&circuit), options)
        .unwrap();
    let error = fibonacci_circuit(3).verify(&proof, options).unwrap_err();
    assert!(matches!(error, VerificationError::MissingRow { row: 3 }));
    assert_eq!(
        error.to_string(),
        "the proof doesn't have an opening for public row 3"
    );
}

#[test]
fn test_missing_rotation_is_rejected() {
    // both circuits have one selector for the same row, but one of them uses more rotations
    let build = |constraint: Constraint<Scalar>| {
        let mut builder = CircuitBuilder::new();
        builder.add_gate(0, constraint);
        builder.build(CompilationOptions::default()).unwrap()
    };
    let narrow = build(rvar(0, 0) - rvar(0, 1));
    let wide = build(rvar(0, 0) - rvar(0, 2));
    let options = ProvingOptions { blowup_log2: 1 };
    let proof = narrow.prove::<Sha2Hash>(narrow.make_witness(), options).unwrap();
    let error = wide.verify(&proof, options).unwrap_err();
    assert!(matches!(
        error,
        VerificationError::MissingRotation { rotation: 2 }
    ));
    assert_eq!(
        error.to_string(),
        "the proof doesn't have an opening for the required rotation 2"
    );
}

#[test]
fn test_other_gates_are_rejected() {
    // the circuits have the same selectors and wires
    let build = |constraint: Constraint<Scalar>| {
        let mut builder = CircuitBuilder::new();
        builder.add_gate(0, constraint);
        builder.build(CompilationOptions::default()).unwrap()
    };
    let one = build(var(0) - 1);
    let two = build(var(0) - 2);
    let options = ProvingOptions { blowup_log2: 1 };
    let mut witness = one.make_witness();
    witness.set(cell(0, 0), from_const(1));
    let proof = one.prove::<Sha2Hash>(witness, options).unwrap();
    assert!(one.verify(&proof, options).is_ok());
    let error = two.verify(&proof, options).unwrap_err();
    assert!(matches!(error, VerificationError::ConstraintViolation));
    assert_eq!(error.to_string(), "constraint violation");
    // more chunks of the quotient are expected
    let square = build((var(0) ^ 3) - 1);
    let error = square.verify(&proof, options).unwrap_err();
    assert!(matches!(
        error,
        VerificationError::Polynomials { got: 5, want: 7 }
    ));
    assert_eq!(
        error.to_string(),
        "incorrect number of committed polynomials (got 5, want 7)"
    );
}

#[test]
fn test_build_rejects_negative_exponents() {
    let mut builder = CircuitBuilder::new();
    builder.add_gate(0, (var(0) ^ -1) - var(1));
    let error = builder.build(CompilationOptions::default()).unwrap_err();
    assert_eq!(
        error.to_string(),
        "constraint `var(0) ^ -1 + -1 * var(1)` is not canonical"
    );
}

#[test]
fn test_build_canonicalizes() {
    let mut builder = CircuitBuilder::new();
    builder.add_gate(0, (var(0) ^ -1) - var(1));
    let options = CompilationOptions {
        canonicalize_constraints: true,
    };
    let circuit = builder.build(options).unwrap();
    let mut witness = circuit.make_witness();
    witness.set(cell(0, 0), from_const(4));
    witness.set(cell(0, 1), from_const(4).invert().unwrap());
    assert!(circuit.check_witness(&witness).is_ok());
}

#[test]
fn test_build_rejects_overflowing_exponents() {
    let mut builder = CircuitBuilder::new();
    builder.add_gate(0, (var(0) ^ isize::MIN) - var(1));
    let options = CompilationOptions {
        canonicalize_constraints: true,
    };
    let error = builder.build(options).unwrap_err();
    assert!(matches!(error, BuildError::ExponentOverflow));
}

#[test]
fn test_build_rejects_large_circuits() {
    let mut builder = CircuitBuilder::new();
    builder.add_gate(1 << 62, var(0) - var(1));
    let error = builder.build(CompilationOptions::default()).unwrap_err();
    assert!(matches!(error, BuildError::TooLarge));
    assert_eq!(error.to_string(), "the circuit is too large");
}

#[test]
fn test_high_degrees_can_be_compiled() {
    let mut builder = CircuitBuilder::new();
    builder.add_gate(0, var(0) ^ (1 << 61));
    let circuit = builder.build(CompilationOptions::default()).unwrap();
    assert_eq!(circuit.num_columns(), 1);
    assert!(circuit.check_witness(&circuit.make_witness()).is_ok());
    let options = ProvingOptions { blowup_log2: 1 };
    assert!(!circuit.is_provable_with(options));
    assert!(circuit.as_compressed::<Sha2Hash>(options).is_verifiable());
    let mut builder = CircuitBuilder::new();
    builder.add_gate(0, var(0) ^ isize::MAX);
    let circuit = builder.build(CompilationOptions::default()).unwrap();
    assert!(!circuit.is_provable_with(options));
    assert!(!circuit.as_compressed::<Sha2Hash>(options).is_verifiable());
}

#[test]
fn test_provable_options() {
    let circuit = squares_circuit();
    assert!(!circuit.is_provable_with(ProvingOptions { blowup_log2: 0 }));
    assert!(circuit.is_provable_with(ProvingOptions { blowup_log2: 1 }));
    assert!(circuit.is_provable_with(ProvingOptions { blowup_log2: 60 }));
    assert!(!circuit.is_provable_with(ProvingOptions { blowup_log2: 61 }));
    assert!(!circuit.is_provable_with(ProvingOptions { blowup_log2: usize::MAX }));
    let empty = CircuitBuilder::new().build(CompilationOptions::default()).unwrap();
    assert!(!empty.is_provable_with(ProvingOptions { blowup_log2: 1 }));
}

#[test]
fn test_nop_gate_has_columns() {
    let mut builder = CircuitBuilder::new();
    let outputs = builder.add_nop_gate([None, None]);
    assert_eq!(outputs, [cell(0, 0), cell(0, 1)]);
    let [] = builder.add_nop_gate([]);
    builder.connect(Some(outputs[0]), Some(outputs[1]));
    let circuit = builder.build(CompilationOptions::default()).unwrap();
    assert_eq!(circuit.num_rows(), 2);
    assert_eq!(circuit.num_columns(), 2);
}

#[test]
fn test_gates_in_sections_take_successive_rows() {
    let mut builder = CircuitBuilder::new();
    builder.skip_rows(5);
    let mut section = builder.sub(1, 2, 2);
    assert_eq!(section.add_nop_gate([None]), [cell(1, 2)]);
    assert_eq!(section.add_nop_gate([None, None]), [cell(2, 2), cell(2, 3)]);
    let [output] = section.auto_gate(var(0) - var(1), [None]);
    assert_eq!(output, cell(3, 3));
    assert_eq!(section.auto_constraint(var(0) - 1, [None]), [cell(4, 2)]);
}

#[test]
fn test_build_rejects_cells_out_of_range() {
    let mut builder = CircuitBuilder::new();
    builder.add_gate(0, var(0) - var(1));
    builder.connect(Some(cell(0, 0)), Some(cell(0, 2)));
    let error = builder.build(CompilationOptions::default()).unwrap_err();
    assert!(matches!(error, BuildError::CellOutOfRange));
}

/// Squares its input.
struct SquareChip;

impl Chip<1, 1> for SquareChip {
    type Error = String;

    fn width(&self) -> usize {
        2
    }

    fn height(&self) -> usize {
        1
    }

    fn build<V: CircuitView>(
        &self,
        builder: &mut V,
        inputs: [Option<Cell>; 1],
    ) -> Result<[Option<Cell>; 1], String> {
        let [output] = builder.auto_gate::<1, 1>((var(0) ^ 2) - var(1), inputs);
        Ok([Some(output)])
    }

    fn witness<V: WitnessView>(
        &self,
        witness: &mut V,
        inputs: [CellOrUnconstrained; 1],
    ) -> Result<[CellOrUnconstrained; 1], String> {
        let value = witness.get(inputs[0]);
        let (input, output) = (witness.cell(0, 0), witness.cell(0, 1));
        witness.set(input, value);
        witness.set(output, value * value);
        Ok([output.into()])
    }
}

#[test]
fn test_chips() {
    let mut builder = CircuitBuilder::new();
    let first = builder.sub_chip(0, 0, &SquareChip, [None]).unwrap();
    assert_eq!(first, [Some(cell(0, 1))]);
    let second = builder.sub_chip(1, 1, &SquareChip, first).unwrap();
    assert_eq!(second, [Some(cell(1, 2))]);
    let circuit = builder.build(CompilationOptions::default()).unwrap();
    assert_eq!(circuit.num_rows(), 2);
    assert_eq!(circuit.num_columns(), 3);
    let mut witness = circuit.make_witness();
    let [first] = witness
        .sub_chip(0, 0, &SquareChip, [from_const(3).into()])
        .unwrap();
    let [second] = witness.sub_chip(1, 1, &SquareChip, [first]).unwrap();
    assert_eq!(witness.get(second), from_const(81));
    assert!(circuit.check_witness(&witness).is_ok());
    witness.set(cell(0, 1), from_const(10));
    assert!(circuit.check_witness(&witness).is_err());
}

#[test]
fn test_clones() {
    let circuit = squares_circuit();
    let witness = squares_witness(&circuit, [3, 9, 9, 81]);
    let copy = circuit.clone();
    assert_eq!(copy.num_columns(), 4);
    assert!(copy.check_witness(&witness.clone()).is_ok());
    let options = ProvingOptions { blowup_log2: 1 };
    let proof = copy.prove::<Sha2Hash>(witness.clone(), options).unwrap();
    assert!(circuit.verify(&proof, options).is_ok());
    assert!(circuit.verify(&proof.clone(), options).is_ok());
    let compressed = circuit.as_compressed::<Sha2Hash>(options).clone();
    assert!(compressed.verify(&proof).is_ok());
    let mut builder = CircuitBuilder::new();
    builder.add_gate(0, var(0) - 1);
    let mut other = builder.clone();
    other.add_gate(1, var(0) - 1);
    assert_eq!(builder.num_rows(), 1);
    assert_eq!(other.num_rows(), 2);
}

#[test]
fn test_transitive_connections_are_enforced() {
    let mut builder = CircuitBuilder::new();
    builder.add_gate(0, var(0) * var(1) - var(2));
    builder.connect(Some(cell(0, 0)), Some(cell(0, 1)));
    builder.connect(Some(cell(0, 2)), Some(cell(0, 1)));
    let circuit = builder.build(CompilationOptions::default()).unwrap();
    let check = |values: [u64; 3]| {
        let mut witness = circuit.make_witness();
        for i in 0..3 {
            witness.set(cell(0, i), from_const(values[i]));
        }
        circuit.check_witness(&witness).is_ok()
    };
    assert!(check([1, 1, 1]));
    assert!(check([0, 0, 0]));
    assert!(!check([2, 2, 4]));
}

#[test]
fn test_shifted_gate_equals_one_in_another_column() {
    let constraint = || -> Constraint<Scalar> { var(0) * rvar(1, 1) - 6 };
    let mut shifted = CircuitBuilder::new();
    shifted.add_gate(2, constraint().remap_variables(3));
    let mut raw = CircuitBuilder::new();
    raw.sub_fn(0, 3, 2, |view| view.add_gate(2, constraint()));
    assert_eq!(shifted.num_rows(), raw.num_rows());
    assert_eq!(shifted.num_columns(), raw.num_columns());
    let shifted = shifted.build(CompilationOptions::default()).unwrap();
    let raw = raw.build(CompilationOptions::default()).unwrap();
    let mut witness = raw.make_witness();
    witness.set(cell(2, 3), from_const(2));
    witness.set(cell(3, 4), from_const(3));
    assert!(raw.check_witness(&witness).is_ok());
    assert!(shifted.check_witness(&witness).is_ok());
    witness.set(cell(3, 4), from_const(4));
    assert!(raw.check_witness(&witness).is_err());
    assert!(shifted.check_witness(&witness).is_err());
}

#[test]
fn test_every_connected_pair_is_checked() {
    let pairs = [((0, 0), (1, 1)), ((2, 0), (1, 1)), ((0, 1), (2, 1))];
    let mut builder = CircuitBuilder::new();
    builder.add_gate(2, var(0) - var(1));
    for (a, b) in pairs {
        builder.connect(Some(cell(a.0, a.1)), Some(cell(b.0, b.1)));
    }
    let circuit = builder.build(CompilationOptions::default()).unwrap();
    for changed in 0..7 {
        let mut witness = circuit.make_witness();
        for (i, (row, column)) in [(0, 0), (1, 1), (2, 0), (0, 1), (2, 1), (1, 0)]
            .into_iter()
            .enumerate()
        {
            let value = if i == changed { 8 } else { 7 };
            witness.set(cell(row, column), from_const(value));
        }
        // the sixth cell is neither connected nor part of a gate
        assert_eq!(circuit.check_witness(&witness).is_ok(), changed >= 5);
    }
}

#[test]
fn test_tutorial_circuit_reveals_its_public_row() {
    let mut builder = CircuitBuilder::new();
    builder.add_gate(0, (var(0) ^ 2) - var(1));
    builder.add_gate(1, var(0) * var(1) + var(0) + 5 - var(2));
    builder.add_gate(2, Constraint::nop());
    for (a, b) in [((0, 0), (1, 0)), ((0, 1), (1, 1)), ((0, 0), (2, 0)), ((1, 2), (2, 1))] {
        builder.connect(Some(cell(a.0, a.1)), Some(cell(b.0, b.1)));
    }
    builder.declare_public_rows(&vec![2]);
    let circuit = builder.build(CompilationOptions::default()).unwrap();
    let mut witness = circuit.make_witness();
    for (i, row) in [[3, 9, 0], [3, 9, 35], [3, 35, 0]].iter().enumerate() {
        for j in 0..3 {
            witness.set(cell(i, j), from_const(row[j]));
        }
    }
    assert!(circuit.check_witness(&witness).is_ok());
    let options = ProvingOptions { blowup_log2: 1 };
    let proof = circuit.prove::<Sha2Hash>(witness, options).unwrap();
    let expected = vec![
        (cell(2, 0), from_const(3)),
        (cell(2, 1), from_const(35)),
        (cell(2, 2), from_const(0)),
    ];
    assert_eq!(circuit.verify(&proof, options).unwrap(), expected);
    let compressed = circuit.as_compressed::<Sha2Hash>(options);
    assert_eq!(compressed.verify(&proof).unwrap(), expected);
}

#[test]
fn test_refused_witnesses_are_not_proved() {
    let circuit = squares_circuit();
    let options = ProvingOptions { blowup_log2: 1 };
    for values in [[3, 9, 9, 80], [3, 8, 8, 64], [3, 9, 10, 100]] {
        let witness = squares_witness(&circuit, values);
        assert!(circuit.check_witness(&witness).is_err());
        assert!(circuit.prove::<Sha2Hash>(witness, options).is_err());
    }
}

#[test]
fn test_compressed_circuits_are_compared() {
    let circuit = squares_circuit();
    let options = ProvingOptions { blowup_log2: 1 };
    let compressed = circuit.as_compressed::<Sha2Hash>(options);
    assert!(compressed == circuit.clone().to_compressed::<Sha2Hash>(options));
    assert!(compressed == compressed.clone());
    assert!(compressed != circuit.as_compressed::<Sha2Hash>(ProvingOptions { blowup_log2: 2 }));
    assert!(compressed != fibonacci_circuit(5).as_compressed::<Sha2Hash>(options));
}

#[test]
fn test_connection_to_a_blinding_row() {
    // the drawn value in row 1 breaks the connection
    let mut builder = CircuitBuilder::new();
    builder.add_gate(0, var(0) - 7);
    builder.connect(Some(cell(0, 0)), Some(cell(1, 0)));
    let circuit = builder.build(CompilationOptions::default()).unwrap();
    let mut witness = circuit.make_witness();
    witness.set(cell(0, 0), from_const(7));
    witness.set(cell(1, 0), from_const(7));
    assert!(circuit.check_witness(&witness).is_ok());
    let options = ProvingOptions { blowup_log2: 1 };
    let error = circuit.prove::<Sha2Hash>(witness.clone(), options).err().unwrap();
    assert_eq!(error, ProvingError::Wraparound);
    assert!(circuit.prove_blinded::<Sha2Hash>(&witness, options).is_ok());
}
