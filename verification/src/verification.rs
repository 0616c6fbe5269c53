//! Laws about the verification of proofs.
use crate::argument::{
    challenges, gate_sum, identity_product, lagrange0_at, rotated_point, row_point, sigma_product,
    tag, Challenges,
};
use crate::arith::{inverse, invertible, is_inverse, lemma_mod_mul, lemma_small, mod_pow};
use crate::cell::Cell;
use crate::evaluation::lemma_mod_pow_add;
use crate::field::{Field, Scalar};
use crate::model::{
    is_opened_rotation, max_gate_degree, opened_set, quotient_bound, quotient_chunks, CircuitModel,
    Placement,
};
use crate::pcs::{
    challenge, merkle_root, opening_accepted, opening_count, opening_points, opening_roots,
    opening_setup, HashBackend, HashKind, Opening, Setup,
};
use crate::plonk::ProvingOptions;
use crate::poly::{domain_root, poly_eval};
use crate::proving::{proof_setup, provable_with};
use crate::terms::{shift_terms, terms_value};
use crate::variable::Variable;
use crate::verifying::{
    compress, is_verify_result, CompressedCircuit, CompressedModel, VerificationError,
};
use vstd::arithmetic::power2::pow2;
use vstd::arithmetic::power::{lemma_pow0, lemma_pow1, lemma_pow_adds, pow};
use vstd::prelude::*;
use vstd::std_specs::cmp::PartialEqSpec;
use vstd::string::*;

verus! {

/// The challenges of the permutation argument and the one that combines the gates depend on the first
/// two root hashes, the one that combines the constraints on the first three, and the position at
/// which polynomials are opened on the first four. Each has a tag of its own.
pub proof fn law_challenges(setup: Setup, roots: Seq<Seq<u8>>)
    requires
        roots.len() >= 4,
    ensures
        challenges(setup, roots).beta == challenge(
            setup.kind,
            seq![roots[0], roots[1]],
            tag("starkom/plonk/challenge/beta".spec_bytes()),
        ),
        challenges(setup, roots).gamma == challenge(
            setup.kind,
            seq![roots[0], roots[1]],
            tag("starkom/plonk/challenge/gamma".spec_bytes()),
        ),
        challenges(setup, roots).delta == challenge(
            setup.kind,
            seq![roots[0], roots[1]],
            tag("starkom/plonk/challenge/delta".spec_bytes()),
        ),
        challenges(setup, roots).alpha == challenge(
            setup.kind,
            seq![roots[0], roots[1], roots[2]],
            tag("starkom/plonk/challenge/alpha".spec_bytes()),
        ),
        challenges(setup, roots).xi == challenge(
            setup.kind,
            seq![roots[0], roots[1], roots[2], roots[3]],
            tag("starkom/plonk/challenge/xi".spec_bytes()),
        ),
{
    assert(roots.subrange(0, 2) =~= seq![roots[0], roots[1]]);
    assert(roots.subrange(0, 3) =~= seq![roots[0], roots[1], roots[2]]);
    assert(roots.subrange(0, 4) =~= seq![roots[0], roots[1], roots[2], roots[3]]);
}

/// The position of a rotation is the position at which polynomials are opened, multiplied with the
/// root of unity as often as the rotation says; rotations in the other direction divide. The position
/// of a row is a power of the root of unity.
pub proof fn law_points(size: int, xi: int, rotation: isize, row: usize)
    requires
        rotation < isize::MAX,
        row < usize::MAX,
        invertible(domain_root(size), Scalar::modulus()),
    ensures
        rotated_point(size, xi, 0) == xi % Scalar::modulus(),
        rotated_point(size, xi, (rotation + 1) as isize) == (rotated_point(size, xi, rotation)
            * domain_root(size)) % Scalar::modulus(),
        row_point(size, 0) == 1,
        row_point(size, (row + 1) as usize) == (row_point(size, row) * domain_root(size))
            % Scalar::modulus(),
{
    let p = Scalar::modulus();
    Scalar::lemma_modulus();
    let w = domain_root(size);
    lemma_pow0(w);
    lemma_pow1(w);
    lemma_small(1, p);
    assert(mod_pow(w, 0, p) == 1);
    assert(xi * 1 == xi);
    let e = rotation as int;
    lemma_mod_pow_add(w, e, 1, p);
    let (a, b) = (mod_pow(w, e, p), mod_pow(w, 1, p));
    assert(b == w % p);
    lemma_mod_mul(a, w, p);
    assert(mod_pow(w, e + 1, p) == (a * w) % p);
    lemma_mod_mul(xi, a * w, p);
    lemma_mod_mul(xi * a, w, p);
    assert(xi * (a * w) == (xi * a) * w) by (nonlinear_arith);
    lemma_pow_adds(w, row as nat, 1);
    lemma_mod_mul(pow(w, row as nat), w, p);
}

/// A proof is accepted only if it has four root hashes, the first of which is that of the circuit, was
/// made with the circuit's degree bound and blowup factor, has the right number of polynomials, opens
/// them for all rotations and revealed rows, is a correct opening, and its values satisfy the
/// equation. Nothing else is needed.
pub proof fn law_accepted_proofs(
    ret: Result<Vec<(Cell, Scalar)>, VerificationError>,
    c: CompressedModel,
    o: Opening,
)
    requires
        is_verify_result(ret, c, o),
    ensures
        ret is Ok <==> {
            let ch = challenges(c.setup, opening_roots(o));
            &&& opening_roots(o).len() == 4
            &&& opening_roots(o)[0] == c.root
            &&& opening_setup(o).degree_bound == c.size
            &&& opening_setup(o).blowup_log2 == c.setup.blowup_log2
            &&& opening_count(o) == c.selectors + 2 * c.columns + 1 + c.chunks()
            &&& forall|r: isize| #[trigger]
                is_opened_rotation(c.gates, r) ==> opening_points(o).contains_key(
                    rotated_point(c.size, ch.xi, r),
                )
            &&& forall|i: int|
                0 <= i < c.public_rows.len() ==> opening_points(o).contains_key(
                    row_point(c.size, #[trigger] c.public_rows[i]),
                )
            &&& opening_accepted(o)
            &&& ch.xi != 1
            &&& c.equation_holds(ch, o)
        },
{
    let ch = challenges(c.setup, opening_roots(o));
    if c.opens_rotations(ch, o) {
        assert forall|r: isize| #[trigger] is_opened_rotation(c.gates, r) implies opening_points(
            o,
        ).contains_key(rotated_point(c.size, ch.xi, r)) by {
            assert(opened_set(c.gates).contains(r));
            assert(c.opens_rotation(ch, o, r));
        }
    }
    if forall|r: isize| #[trigger]
        is_opened_rotation(c.gates, r) ==> opening_points(o).contains_key(
            rotated_point(c.size, ch.xi, r),
        ) {
        assert forall|r: isize| opened_set(c.gates).contains(r) implies #[trigger] c.opens_rotation(
            ch,
            o,
            r,
        ) by {
            assert(is_opened_rotation(c.gates, r));
        }
    }
    if c.opens_rows(o) {
        assert forall|i: int| 0 <= i < c.public_rows.len() implies opening_points(o).contains_key(
            row_point(c.size, #[trigger] c.public_rows[i]),
        ) by {
            assert(c.opens_row(o, c.public_rows[i]));
        }
    }
    if forall|i: int|
        0 <= i < c.public_rows.len() ==> opening_points(o).contains_key(
            row_point(c.size, #[trigger] c.public_rows[i]),
        ) {
        assert forall|i: int| 0 <= i < c.public_rows.len() implies c.opens_row(
            o,
            #[trigger] c.public_rows[i],
        ) by {}
    }
}

/// The equation that the opened values have to satisfy: the constraints of the gates, the constraint
/// that the accumulator starts with 1 and the recurrence of the accumulator, combined with powers of
/// `alpha`, are the quotient, put together from its chunks, times `X^n - 1`. The values are those of
/// the selectors, the permutation polynomials, the columns, the accumulator and the chunks, in this
/// order.
pub proof fn law_equation(c: CompressedModel, ch: Challenges, o: Opening)
    ensures
        c.equation_holds(ch, o) <==> {
            let here = opening_points(o)[rotated_point(c.size, ch.xi, 0)];
            let next = opening_points(o)[rotated_point(c.size, ch.xi, 1)];
            let (s, n) = (c.selectors, c.columns);
            let (z, w) = (here[s + 2 * n], next[s + 2 * n]);
            let columns = here.subrange(s + n, s + 2 * n);
            let gates = gate_sum(c.gates, here, c.opened_valuation(ch, o), ch.delta);
            let starts = (z - 1) * lagrange0_at(ch.xi, c.size);
            let recurs = w * sigma_product(columns, here.subrange(s, s + n), ch.beta, ch.gamma) - z
                * identity_product(columns, ch.xi, ch.beta, ch.gamma);
            let chunks = here.subrange(s + 2 * n + 1, s + 2 * n + 1 + c.chunks());
            let x = pow(ch.xi, c.size as nat);
            (gates + ch.alpha * starts + (ch.alpha * ch.alpha) * recurs) % Scalar::modulus() == (
            poly_eval(chunks, x) * (x - 1)) % Scalar::modulus()
        },
{
}

/// In the equation, a variable has the value of its column at the position of its rotation.
pub proof fn law_opened_variables(c: CompressedModel, ch: Challenges, o: Opening, v: Variable)
    ensures
        c.opened_valuation(ch, o)(v) == opening_points(o)[rotated_point(
            c.size,
            ch.xi,
            v.rotation,
        )][c.selectors + c.columns + v.column_index],
{
}

/// The constraint of a placed gate is multiplied with its selector and with a power of `delta` that no
/// other gate has, and stands for the variables from its column on.
pub proof fn law_combined_gates(
    gates: Seq<Placement>,
    g: Placement,
    selectors: Seq<int>,
    values: spec_fn(Variable) -> int,
    delta: int,
)
    ensures
        gate_sum(Seq::empty(), selectors, values, delta) == 0,
        gate_sum(gates.push(g), selectors, values, delta) == gate_sum(
            gates,
            selectors,
            values,
            delta,
        ) + selectors[g.selector] * terms_value(
            shift_terms(g.terms, g.column),
            values,
            Scalar::modulus(),
        ) * pow(delta, gates.len()),
{
    assert(gates.push(g).drop_last() =~= gates);
}

/// The products of the permutation argument have a factor for every column: its value, plus `beta`
/// times a position, plus `gamma`. In one product that is the position of the cell itself, in the
/// other one the position of the next cell of its node.
pub proof fn law_permutation_products(
    values: Seq<int>,
    last: int,
    sigma: Seq<int>,
    x: int,
    beta: int,
    gamma: int,
)
    ensures
        identity_product(Seq::empty(), x, beta, gamma) == 1,
        sigma_product(Seq::empty(), sigma, beta, gamma) == 1,
        identity_product(values.push(last), x, beta, gamma) == identity_product(
            values,
            x,
            beta,
            gamma,
        ) * (last + beta * (pow(5, values.len()) * x) + gamma),
        sigma_product(values.push(last), sigma, beta, gamma) == sigma_product(
            values,
            sigma,
            beta,
            gamma,
        ) * (last + beta * sigma[values.len() as int] + gamma),
{
    assert(values.push(last).drop_last() =~= values);
}

/// The value of the polynomial that is 1 at the first element of the evaluation domain and 0 at the
/// others: times `n * (x - 1)` it is `x^n - 1`.
pub proof fn law_lagrange_value(x: int, n: int)
    requires
        invertible((n * (x - 1)) % Scalar::modulus(), Scalar::modulus()),
    ensures
        (lagrange0_at(x, n) * (n * (x - 1))) % Scalar::modulus() == (pow(x, n as nat) - 1)
            % Scalar::modulus(),
{
    let p = Scalar::modulus();
    Scalar::lemma_modulus();
    let d = n * (x - 1);
    let i = inverse(d % p, p);
    assert(is_inverse(d % p, i, p));
    let y = pow(x, n as nat) - 1;
    lemma_mod_mul(y * i, d, p);
    lemma_mod_mul(d, i, p);
    assert((y * i) * d == y * (d * i)) by (nonlinear_arith);
    lemma_mod_mul(y, d * i, p);
}

/// An accepted proof reveals all cells of the revealed rows, row by row, each with the value of its
/// column at the position of the row.
pub proof fn law_revealed_values(
    ret: Result<Vec<(Cell, Scalar)>, VerificationError>,
    c: CompressedModel,
    o: Opening,
    i: int,
    j: int,
)
    requires
        is_verify_result(ret, c, o),
        ret is Ok,
        0 <= i < c.public_rows.len(),
        0 <= j < c.columns,
    ensures
        ret->Ok_0@.len() == c.public_rows.len() * c.columns,
        ret->Ok_0@[i * c.columns + j].0.row == c.public_rows[i],
        ret->Ok_0@[i * c.columns + j].0.column == j,
        ret->Ok_0@[i * c.columns + j].1.value() == opening_points(o)[row_point(
            c.size,
            c.public_rows[i],
        )][c.selectors + c.columns + j],
{
    let list = ret->Ok_0@;
    assert(crate::verifying::is_public_entry(
        list[i * c.columns + j],
        c.public_rows[i],
        j,
        opening_points(o)[row_point(c.size, c.public_rows[i])][c.selectors + c.columns + j],
    ));
}

/// What the errors of a verification say: what was found is not what is asked for.
pub proof fn law_verification_errors(
    ret: Result<Vec<(Cell, Scalar)>, VerificationError>,
    c: CompressedModel,
    o: Opening,
)
    requires
        is_verify_result(ret, c, o),
    ensures
        ret matches Err(VerificationError::TreeRoots { got, want }) ==> got == opening_roots(o).len()
            && want == 4 && got != want,
        ret matches Err(VerificationError::CircuitCommitment { got_root, want_root }) ==> got_root@
            == opening_roots(o)[0] && want_root@ == c.root && got_root@ != want_root@,
        ret matches Err(VerificationError::DegreeBound { got, want }) ==> got == opening_setup(
            o,
        ).degree_bound && want == c.size && got != want,
        ret matches Err(VerificationError::Polynomials { got, want }) ==> got == opening_count(o)
            && want == c.num_polynomials() && got != want,
        ret matches Err(VerificationError::MissingRotation { rotation }) ==> is_opened_rotation(
            c.gates,
            rotation,
        ) && !opening_points(o).contains_key(
            rotated_point(c.size, challenges(c.setup, opening_roots(o)).xi, rotation),
        ),
        ret matches Err(VerificationError::MissingRow { row }) ==> c.public_rows.contains(row)
            && !opening_points(o).contains_key(row_point(c.size, row)),
        ret matches Err(VerificationError::InvalidOpening { .. }) ==> !opening_accepted(o),
        ret matches Err(VerificationError::Degenerate) ==> challenges(
            c.setup,
            opening_roots(o),
        ).xi == 1,
        ret matches Err(VerificationError::ConstraintViolation) ==> !c.equation_holds(
            challenges(c.setup, opening_roots(o)),
            o,
        ),
{
    if let Err(VerificationError::MissingRotation { rotation }) = ret {
        assert(opened_set(c.gates).contains(rotation));
    }
}

/// The committed form of a circuit has its dimensions, gates and revealed rows, and the root hash of
/// its selectors and permutation polynomials.
pub proof fn law_committed_form(m: CircuitModel, setup: Setup)
    ensures
        compress(m, setup).rows == m.rows,
        compress(m, setup).blinding == m.blinding,
        compress(m, setup).size == m.size,
        compress(m, setup).columns == m.columns,
        compress(m, setup).gates == m.gates,
        compress(m, setup).selectors == m.selectors.len(),
        compress(m, setup).public_rows == m.public_rows,
        compress(m, setup).setup == setup,
        compress(m, setup).root == merkle_root(setup, m.selectors + m.sigma),
{
}

/// Proofs can be made with a blowup factor if the circuit has a column, the factor is at least two, and
/// its product with the padded number of rows is not larger than the largest evaluation domain, which
/// also has to have room for the quotient.
pub proof fn law_provable_with(m: CircuitModel, kind: HashKind, options: ProvingOptions)
    ensures
        provable_with(m, options) <==> {
            &&& m.columns > 0
            &&& options.blowup_log2 > 0
            &&& m.size * pow2(options.blowup_log2 as nat) <= 0x4000_0000_0000_0000
            &&& m.size * pow2(options.blowup_log2 as nat) <= usize::MAX
            &&& m.size * (max_gate_degree(m.gates) + m.columns + 4) <= 0x4000_0000_0000_0000
            &&& max_gate_degree(m.gates) <= usize::MAX
            &&& quotient_bound(m.size, m.columns, m.gates) <= usize::MAX
            &&& m.active.len() + 2 * m.columns + 1 + quotient_chunks(m.size, m.columns, m.gates)
                <= usize::MAX
        },
        proof_setup(kind, m, options).kind == kind,
        proof_setup(kind, m, options).degree_bound == m.size,
        proof_setup(kind, m, options).blowup_log2 == options.blowup_log2,
        proof_setup(kind, m, options).extended_size() == m.size * pow2(
            options.blowup_log2 as nat,
        ),
{
}

/// Two circuits in committed form are equal if and only if all of their parts are.
pub proof fn law_equal_circuits<H: HashBackend>(a: CompressedCircuit<H>, b: CompressedCircuit<H>)
    ensures
        CompressedCircuit::<H>::obeys_eq_spec(),
        a.eq_spec(&b) ==> a.model().rows == b.model().rows && a.model().columns
            == b.model().columns && a.model().gates == b.model().gates && a.model().public_rows
            == b.model().public_rows && a.model().setup == b.model().setup && a.model().root
            == b.model().root && a.model().size == b.model().size && a.model().blinding
            == b.model().blinding,
        a.model() == b.model() ==> a.eq_spec(&b),
{
}

} // verus!
