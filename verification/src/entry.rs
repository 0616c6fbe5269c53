//! Laws about what is proved and verified, in terms of the witness that is handed in.
use crate::argument::{challenges, Polynomials};
use crate::cell::Cell;
use crate::checking::{gate_passes, is_check_result, WitnessError};
use crate::completeness::law_proofs_are_accepted;
use crate::field::Scalar;
use crate::model::{cell_value, gate_holds, CircuitModel};
use crate::pcs::{opening_roots, HashBackend, Setup};
use crate::provability::{law_blinding_keeps_satisfaction, law_satisfied_witness_is_provable};
use crate::proving::{is_blinded, is_blinded_prove_result, is_prove_result, Proof, ProvingError};
use crate::soundness::{challenges_hide, law_unsatisfied_witness_is_not_proved};
use crate::verifying::{compress, is_public_entry, is_verify_result, VerificationError};
use crate::witness::Witness;
use vstd::prelude::*;

verus! {

/// What [`Circuit::prove`](crate::plonk::Circuit::prove) returned for a witness is accepted, and the
/// values that are revealed of rows other than the blinding rows and the padding are those of the
/// witness, unless the position at which polynomials are opened happens to be 1.
pub proof fn law_proved_is_accepted<H: HashBackend>(
    m: CircuitModel,
    witness: Witness,
    setup: Setup,
    proof: Proof<H>,
    ret: Result<Vec<(Cell, Scalar)>, VerificationError>,
)
    requires
        m.wf(),
        m.columns > 0,
        setup.degree_bound == m.size,
        is_blinded_prove_result(Ok::<Proof<H>, ProvingError>(proof), m, witness, setup),
        is_verify_result(ret, compress(m, setup), proof.opening()),
        challenges(setup, opening_roots(proof.opening())).xi != 1,
    ensures
        ret matches Ok(list) && list@.len() == m.public_rows.len() * m.columns && forall|
            i: int,
            j: int,
        |
            0 <= i < m.public_rows.len() && 0 <= j < m.columns && m.public_rows[i] < m.rows
                ==> #[trigger] is_public_entry(
                list@[i * m.columns + j],
                m.public_rows[i],
                j,
                witness.table()[j][m.public_rows[i] as int],
            ),
{
    let blinded = choose|blinded: Witness| #[trigger]
        is_blinded(blinded, witness) && is_prove_result(
            Ok::<Proof<H>, ProvingError>(proof),
            m,
            blinded,
            setup,
        );
    assert(m.fits_table(blinded.table()));
    law_proofs_are_accepted(m, blinded, setup, proof, ret);
    let list = (ret->Ok_0)@;
    assert forall|i: int, j: int|
        0 <= i < m.public_rows.len() && 0 <= j < m.columns && m.public_rows[i]
            < m.rows implies #[trigger] is_public_entry(
        list[i * m.columns + j],
        m.public_rows[i],
        j,
        witness.table()[j][m.public_rows[i] as int],
    ) by {
        let row = m.public_rows[i];
        assert(is_public_entry(list[i * m.columns + j], row, j, blinded.table()[j][row as int]));
        let c = Cell { row, column: j as usize };
        assert(witness.has(c) && !witness.is_blinding(c));
        assert(blinded.at(c) == witness.at(c));
    }
}

/// What [`Circuit::prove`](crate::plonk::Circuit::prove) returns for a witness that passes the check
/// is a proof, unless a challenge happens to make a denominator of the permutation argument zero or
/// to be in the extended evaluation domain. If a cell in the blinding rows or the padding is
/// connected to another one, the drawn values can break that connection.
pub proof fn law_checked_witness_is_proved<H: HashBackend>(
    m: CircuitModel,
    witness: Witness,
    setup: Setup,
    ret: Result<Proof<H>, ProvingError>,
)
    requires
        m.wf(),
        is_check_result(Ok::<(), WitnessError>(()), m, witness),
        is_blinded_prove_result(ret, m, witness, setup),
    ensures
        ret is Ok || ret matches Err(ProvingError::ZeroDenominator) || ret matches Err(
            ProvingError::CommittedPoint,
        ) || (ret matches Err(ProvingError::Wraparound) && !m.wires_within()),
{
    let blinded = choose|blinded: Witness| #[trigger]
        is_blinded(blinded, witness) && is_prove_result(ret, m, blinded, setup);
    let table = blinded.table();
    law_blinding_keeps_satisfaction(m, witness, blinded);
    law_satisfied_witness_is_provable(m, blinded, setup, ret);
    if m.wires_within() {
        assert forall|c: Cell| m.has(c) implies cell_value(table, c) == cell_value(
            table,
            #[trigger] m.target(c),
        ) by {}
    }
}

/// The challenges that a witness leads to, with drawn values in its blinding rows, happen to hide that
/// the circuit is violated.
pub open spec fn violation_hidden(m: CircuitModel, witness: Witness, setup: Setup) -> bool {
    exists|blinded: Witness, polys: Polynomials|
        #[trigger] is_blinded(blinded, witness) && #[trigger] polys.fit(m, blinded.table(), setup)
            && challenges_hide(m, blinded.table(), polys.challenges(m, setup))
}

/// A cell in the blinding rows or the padding is connected to another one, and the drawn values happen
/// to satisfy the violated connections.
pub open spec fn violation_mended(m: CircuitModel, witness: Witness) -> bool {
    &&& !m.wires_within()
    &&& exists|blinded: Witness| #[trigger]
        is_blinded(blinded, witness) && m.satisfied(blinded.table())
}

/// What [`Circuit::prove`](crate::plonk::Circuit::prove) returns for a witness that does not pass the
/// check is an error. The exceptions are violated gates and connections that the challenges happen to
/// hide, and violated connections that the drawn values happen to mend. For a witness with other
/// dimensions than the circuit it is an error in any case.
pub proof fn law_refused_witness_is_not_proved<H: HashBackend>(
    m: CircuitModel,
    witness: Witness,
    setup: Setup,
    error: WitnessError,
    ret: Result<Proof<H>, ProvingError>,
)
    requires
        m.wf(),
        is_check_result(Err::<(), WitnessError>(error), m, witness),
        is_blinded_prove_result(ret, m, witness, setup),
    ensures
        ret is Err || (error is Gate && violation_hidden(m, witness, setup)) || (error is Wire && (
        violation_hidden(m, witness, setup) || violation_mended(m, witness))),
{
    let blinded = choose|blinded: Witness| #[trigger]
        is_blinded(blinded, witness) && is_prove_result(ret, m, blinded, setup);
    if ret is Ok {
        let table = witness.table();
        assert(m.fits_table(table));
        law_blinding_keeps_satisfaction(m, witness, blinded);
        assert(error is Gate ==> !m.gates_hold(table)) by {
            if error is Gate {
                let (g, i) = choose|g: int, i: int|
                    0 <= g < m.gates.len() && 0 <= i < m.active[m.gates[g].selector].len()
                        && !#[trigger] gate_passes(m, table, g, i);
                if m.gates_hold(table) {
                    assert(gate_holds(
                        m.gates[g].terms,
                        table,
                        m.active[m.gates[g].selector][i] as int,
                        m.gates[g].column,
                    ));
                }
            }
        }
        assert(error is Wire ==> !m.wires_hold(table)) by {
            if let WitnessError::Wire { source, source_value, target, target_value } = error {
                if m.wires_hold(table) {
                    assert(cell_value(table, source) == cell_value(table, m.target(source)));
                }
            }
        }
        if !m.satisfied(blinded.table()) {
            law_unsatisfied_witness_is_not_proved(m, blinded, setup, ret);
            let polys = choose|polys: Polynomials| #[trigger]
                polys.fit(m, blinded.table(), setup) && challenges_hide(
                    m,
                    blinded.table(),
                    polys.challenges(m, setup),
                );
            assert(violation_hidden(m, witness, setup));
        }
    }
}

} // verus!
