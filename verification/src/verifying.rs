//! Verification of proofs.
use crate::argument::{
    cell_factor, challenges, full_constraint, gate_sum, identity_product, lagrange0_at,
    lemma_full_constraint_cong, rotated_point, row_point, sigma_product, tag, Challenges,
};
use crate::arith::{
    invertible, is_inverse, lemma_cong_mul, lemma_inverse_unique, lemma_mod_add, lemma_mod_mul,
    lemma_mod_sub, lemma_small,
};
use crate::assignment::Assignment;
use crate::cell::Cell;
use crate::compose::lemma_terms_value_cong;
use crate::expr::{canonical, valuation};
use crate::field::{equal, from_const, multiplicative_generator, one, zero, Field, Scalar};
use crate::gate_argument::lemma_placed_gate;
use crate::grouping::copy_rows;
use crate::model::{
    counts_fit, is_opened_rotation, opened_set, quotient_bound, quotient_chunks, rows_sorted,
    terms_rotations, CircuitModel, Placement,
};
use crate::pcs::{
    challenge, hash_lists, merkle_root, opening_accepted, opening_count, opening_fault,
    opening_points, opening_roots, opening_setup, outside_challenge_at, outside_new, outside_points,
    outside_root_hash, outside_tree_roots, outside_verify, HashBackend, Opening, Setup,
};
use crate::plonk::{
    check_counts, collect_rotations, copy_gates, lemma_quotient_bound_nonnegative, max_degree,
    num_quotient_chunks, placements, Circuit, GateInstance, ProvingOptions,
};
use crate::poly::{domain_element, domain_root, max_domain_size, poly_eval};
use crate::proving::{
    committable_with, extended_size, invert_root, lemma_circuit_committable, proof_setup,
    rotate_point, Proof,
};
use crate::terms::{shift_terms, terms_have, terms_value};
use crate::utils::{hash_to_scalar, rotation_set, strictly_increasing};
use crate::variable::Variable;
use crate::witness::residues;
use vstd::arithmetic::power2::pow2;
use vstd::arithmetic::power::{lemma_pow0, lemma_pow1, lemma_pow_adds, pow};
use vstd::prelude::*;
use vstd::string::*;

verus! {

/// A circuit in committed form.
pub ghost struct CompressedModel {
    /// The number of rows, without blinding rows and padding.
    pub rows: int,
    /// The number of blinding rows.
    pub blinding: int,
    /// The number of rows, with blinding rows and padding.
    pub size: int,
    /// The number of columns.
    pub columns: int,
    /// The placements of gates.
    pub gates: Seq<Placement>,
    /// The number of selectors.
    pub selectors: int,
    /// The rows that are revealed in the proofs, in order.
    pub public_rows: Seq<usize>,
    /// What commitments are made with.
    pub setup: Setup,
    /// The root hash of the selectors and permutation polynomials.
    pub root: Seq<u8>,
}

/// The committed form of a circuit.
pub open spec fn compress(m: CircuitModel, setup: Setup) -> CompressedModel {
    CompressedModel {
        rows: m.rows,
        blinding: m.blinding,
        size: m.size,
        columns: m.columns,
        gates: m.gates,
        selectors: m.selectors.len() as int,
        public_rows: m.public_rows,
        setup,
        root: merkle_root(setup, m.selectors + m.sigma),
    }
}

/// A valid circuit has the given committed form.
pub open spec fn is_source(m: CircuitModel, c: CompressedModel) -> bool {
    m.wf() && m.columns > 0 && c.setup.degree_bound == m.size && c.setup.valid() && compress(
        m,
        c.setup,
    ) == c
}

impl CompressedModel {
    /// The number of chunks of the quotient.
    pub open spec fn chunks(self) -> int {
        quotient_chunks(self.size, self.columns, self.gates)
    }

    /// The number of polynomials.
    pub open spec fn num_polynomials(self) -> int {
        self.selectors + self.columns + self.columns + 1 + self.chunks()
    }

    /// The numbers of chunks and polynomials can be handled.
    pub open spec fn countable(self) -> bool {
        counts_fit(self.size, self.columns, self.gates, self.selectors)
    }

    /// The position of a rotation.
    pub open spec fn point(self, ch: Challenges, rotation: isize) -> int {
        rotated_point(self.size, ch.xi, rotation)
    }

    /// The values of the columns that variables stand for, according to an opening.
    pub open spec fn opened_valuation(self, ch: Challenges, o: Opening) -> spec_fn(Variable) -> int {
        |v: Variable|
            opening_points(o)[self.point(ch, v.rotation)][self.selectors + self.columns
                + v.column_index]
    }

    /// The opened values at `xi` satisfy the equation between the full constraint and the quotient.
    pub open spec fn equation_holds(self, ch: Challenges, o: Opening) -> bool {
        let p = Scalar::modulus();
        let here = opening_points(o)[self.point(ch, 0)];
        let next = opening_points(o)[self.point(ch, 1)];
        let (s, n) = (self.selectors, self.columns);
        let columns = here.subrange(s + n, s + n + n);
        let power = pow(ch.xi, self.size as nat);
        full_constraint(
            gate_sum(self.gates, here, self.opened_valuation(ch, o), ch.delta),
            here[s + n + n],
            next[s + n + n],
            identity_product(columns, ch.xi, ch.beta, ch.gamma),
            sigma_product(columns, here.subrange(s, s + n), ch.beta, ch.gamma),
            lagrange0_at(ch.xi, self.size),
            ch.alpha,
        ) % p == (poly_eval(
            here.subrange(s + n + n + 1, s + n + n + 1 + self.chunks()),
            power,
        ) * (power - 1)) % p
    }

    /// The polynomials are opened at the position of a rotation.
    pub open spec fn opens_rotation(self, ch: Challenges, o: Opening, rotation: isize) -> bool {
        opening_points(o).contains_key(self.point(ch, rotation))
    }

    /// The polynomials are opened at the positions of all rotations.
    pub open spec fn opens_rotations(self, ch: Challenges, o: Opening) -> bool {
        forall|r: isize|
            opened_set(self.gates).contains(r) ==> #[trigger] self.opens_rotation(ch, o, r)
    }

    /// The polynomials are opened at the position of a revealed row.
    pub open spec fn opens_row(self, o: Opening, row: usize) -> bool {
        opening_points(o).contains_key(row_point(self.size, row))
    }

    /// The polynomials are opened at the positions of all revealed rows.
    pub open spec fn opens_rows(self, o: Opening) -> bool {
        forall|i: int|
            0 <= i < self.public_rows.len() ==> self.opens_row(o, #[trigger] self.public_rows[i])
    }

    /// The list of the revealed cells with their values, row by row.
    pub open spec fn is_public_list(self, list: Seq<(Cell, Scalar)>, o: Opening) -> bool {
        &&& list.len() == self.public_rows.len() * self.columns
        &&& forall|i: int, j: int|
            0 <= i < self.public_rows.len() && 0 <= j < self.columns ==> #[trigger] is_public_entry(
                list[i * self.columns + j],
                self.public_rows[i],
                j,
                opening_points(o)[row_point(self.size, self.public_rows[i])][self.selectors
                    + self.columns + j],
            )
    }
}

/// The entry is for the given cell and has the given value.
pub open spec fn is_public_entry(
    entry: (Cell, Scalar),
    row: usize,
    column: int,
    value: int,
) -> bool {
    entry.0.row == row && entry.0.column == column && entry.1.value() == value
}

/// Why a proof is rejected.
#[derive(Debug)]
pub enum VerificationError {
    /// The number of root hashes is wrong.
    TreeRoots {
        got: usize,
        want: usize,
    },
    /// The root hash of the circuit is wrong.
    CircuitCommitment {
        got_root: [u8; 32],
        want_root: [u8; 32],
    },
    /// The degree bound is wrong.
    DegreeBound {
        got: usize,
        want: usize,
    },
    /// The blowup factor is wrong.
    Blowup {
        got: usize,
        want: usize,
    },
    /// The number of polynomials is wrong.
    Polynomials {
        got: usize,
        want: usize,
    },
    /// The polynomials are not opened for a rotation.
    MissingRotation {
        rotation: isize,
    },
    /// The polynomials are not opened for a revealed row.
    MissingRow {
        row: usize,
    },
    /// The opening is not correct, for the given reason.
    InvalidOpening {
        reason: String,
    },
    /// The polynomials are opened at the first element of the evaluation domain.
    Degenerate,
    /// The opened values don't satisfy the constraints.
    ConstraintViolation,
}

/// The polynomials are opened for all smaller rotations, but not for this one.
pub open spec fn is_first_missing_rotation(
    c: CompressedModel,
    ch: Challenges,
    o: Opening,
    rotation: isize,
) -> bool {
    &&& opened_set(c.gates).contains(rotation)
    &&& !c.opens_rotation(ch, o, rotation)
    &&& forall|r: isize|
        opened_set(c.gates).contains(r) && r < rotation ==> #[trigger] c.opens_rotation(ch, o, r)
}

/// The polynomials are opened for all smaller revealed rows, but not for this one.
pub open spec fn is_first_missing_row(c: CompressedModel, o: Opening, row: usize) -> bool {
    exists|i: int|
        0 <= i < c.public_rows.len() && #[trigger] c.public_rows[i] == row && !c.opens_row(o, row)
            && forall|j: int| 0 <= j < i ==> c.opens_row(o, #[trigger] c.public_rows[j])
}

/// What verifying results in.
pub open spec fn is_verify_result(
    ret: Result<Vec<(Cell, Scalar)>, VerificationError>,
    c: CompressedModel,
    o: Opening,
) -> bool {
    let ch = challenges(c.setup, opening_roots(o));
    if opening_roots(o).len() != 4 {
        ret matches Err(VerificationError::TreeRoots { got, want }) && got == opening_roots(o).len()
            && want == 4
    } else if opening_roots(o)[0] != c.root {
        ret matches Err(VerificationError::CircuitCommitment { got_root, want_root })
            && got_root@ == opening_roots(o)[0] && want_root@ == c.root
    } else if opening_setup(o).degree_bound != c.size {
        ret matches Err(VerificationError::DegreeBound { got, want }) && got == opening_setup(
            o,
        ).degree_bound && want == c.size
    } else if opening_setup(o).blowup_log2 != c.setup.blowup_log2 {
        ret matches Err(VerificationError::Blowup { got, want }) && got == pow2(
            opening_setup(o).blowup_log2 as nat,
        ) && want == pow2(c.setup.blowup_log2 as nat)
    } else if opening_count(o) != c.num_polynomials() {
        ret matches Err(VerificationError::Polynomials { got, want }) && got == opening_count(o)
            && want == c.num_polynomials()
    } else if !c.opens_rotations(ch, o) {
        ret matches Err(VerificationError::MissingRotation { rotation })
            && is_first_missing_rotation(c, ch, o, rotation)
    } else if !c.opens_rows(o) {
        ret matches Err(VerificationError::MissingRow { row }) && is_first_missing_row(c, o, row)
    } else if !opening_accepted(o) {
        ret matches Err(VerificationError::InvalidOpening { reason }) && reason@ == opening_fault(
            o,
        )
    } else if ch.xi == 1 {
        ret matches Err(VerificationError::Degenerate)
    } else {
        &&& invertible((c.size * (ch.xi - 1)) % Scalar::modulus(), Scalar::modulus())
        &&& if c.equation_holds(ch, o) {
            ret matches Ok(list) && c.is_public_list(list@, o)
        } else {
            ret matches Err(VerificationError::ConstraintViolation)
        }
    }
}

/// A PLONK circuit in committed form.
///
/// This struct is much smaller than the original circuit but still allows full verification of a
/// proof for the circuit.
#[derive(Debug)]
pub struct CompressedCircuit<H: HashBackend> {
    /// The raw number of rows of the circuit.
    ///
    /// Unlike [`Self::degree_bound`], this count doesn't include the blinding rows and is not
    /// padded to the next power of 2.
    num_rows: usize,
    /// Number of blinding rows used in the circuit.
    num_blinding_rows: usize,
    /// Number of witness rows (including the blinding rows) rounded up to the next power of 2.
    degree_bound: usize,
    /// Number of witness columns.
    num_columns: usize,
    /// Proving options used to commit to this circuit (in [`Circuit::as_compressed`] or
    /// [`Circuit::to_compressed`]).
    options: ProvingOptions,
    /// The placements of gates, by constraint and then by column.
    gates: Vec<GateInstance>,
    /// Number of gate selectors.
    num_selectors: usize,
    /// List of rows that are revealed in the proofs.
    public_rows: Vec<usize>,
    /// Merkle root of the circuit selectors and permutation polynomials.
    circuit_commitment: [u8; 32],
    backend: core::marker::PhantomData<H>,
}

impl<H: HashBackend> CompressedCircuit<H> {
    /// What the circuit is.
    pub closed spec fn model(self) -> CompressedModel {
        CompressedModel {
            rows: self.num_rows as int,
            blinding: self.num_blinding_rows as int,
            size: self.degree_bound as int,
            columns: self.num_columns as int,
            gates: placements(self.gates@),
            selectors: self.num_selectors as int,
            public_rows: self.public_rows@,
            setup: Setup {
                kind: H::spec_kind(),
                degree_bound: self.degree_bound as int,
                blowup_log2: self.options.blowup_log2 as int,
            },
            root: self.circuit_commitment@,
        }
    }

    /// This is the committed form of a well-formed circuit.
    #[verifier::type_invariant]
    pub closed spec fn wf(self) -> bool {
        &&& exists|m: CircuitModel| #[trigger] is_source(m, self.model())
        &&& forall|i: int|
            0 <= i < self.gates@.len() ==> (#[trigger] self.gates@[i]).remapped@ == shift_terms(
                self.gates@[i].constraint@,
                self.gates@[i].column_index as int,
            )
    }

    /// The raw number of rows of the circuit, without blinding rows and padding.
    pub fn num_rows(&self) -> (ret: usize)
        ensures
            ret == self.model().rows,
    {
        self.num_rows
    }

    /// Number of witness rows (including the blinding rows) rounded up to the next power of 2.
    pub fn degree_bound(&self) -> (ret: usize)
        ensures
            ret == self.model().size,
    {
        self.degree_bound
    }

    /// Number of witness columns.
    pub fn num_columns(&self) -> (ret: usize)
        ensures
            ret == self.model().columns,
    {
        self.num_columns
    }

    /// List of rows that are revealed in the proofs, in order.
    pub fn public_rows(&self) -> (ret: &Vec<usize>)
        ensures
            ret@ == self.model().public_rows,
            rows_sorted(ret@),
    {
        proof {
            use_type_invariant(self);
            let m = choose|m: CircuitModel| #[trigger] is_source(m, self.model());
        }
        &self.public_rows
    }
}

impl Circuit {
    /// Commits to the circuit.
    pub fn as_compressed<H: HashBackend>(&self, options: ProvingOptions) -> (ret: CompressedCircuit<
        H,
    >)
        requires
            committable_with(self.model(), options),
        ensures
            ret.model() == compress(
                self.model(),
                proof_setup(H::spec_kind(), self.model(), options),
            ),
    {
        let ghost m = self.model();
        let ghost setup = proof_setup(H::spec_kind(), m, options);
        proof {
            use_type_invariant(self);
            lemma_circuit_committable(m, setup);
        }
        let polynomials = self.circuit_polynomials();
        let committer = outside_new(
            H::kind(),
            self.degree_bound,
            options.blowup_log2,
            &polynomials,
        );
        let circuit_commitment = outside_root_hash(&committer, 0);
        let gates = copy_gates(&self.gates);
        let public_rows = copy_rows(&self.public_rows);
        let ghost c = compress(m, setup);
        proof {
            assert(is_source(m, c));
            assert forall|i: int| 0 <= i < gates@.len() implies (#[trigger] gates@[i]).remapped@
                == shift_terms(gates@[i].constraint@, gates@[i].column_index as int) by {
                assert(placements(gates@)[i] == placements(self.gates@)[i]);
                assert(self.gates@[i].remapped@ == gates@[i].remapped@);
            }
        }
        CompressedCircuit {
            num_rows: self.num_rows,
            num_blinding_rows: self.num_blinding_rows,
            degree_bound: self.degree_bound,
            num_columns: self.num_columns,
            options,
            gates,
            num_selectors: self.selectors.len(),
            public_rows,
            circuit_commitment,
            backend: core::marker::PhantomData,
        }
    }

    /// Commits to the circuit.
    pub fn to_compressed<H: HashBackend>(self, options: ProvingOptions) -> (ret: CompressedCircuit<
        H,
    >)
        requires
            committable_with(self.model(), options),
        ensures
            ret.model() == compress(
                self.model(),
                proof_setup(H::spec_kind(), self.model(), options),
            ),
    {
        self.as_compressed::<H>(options)
    }
}

/// Compares two hashes.
fn same_hash(a: &[u8; 32], b: &[u8; 32]) -> (ret: bool)
    ensures
        ret == (a@ == b@),
{
    let mut i: usize = 0;
    while i < 32
        invariant
            i <= 32,
            forall|k: int| 0 <= k < i ==> (#[trigger] a@[k]) == b@[k],
        decreases 32 - i,
    {
        if a[i] != b[i] {
            return false;
        }
        i += 1;
    }
    proof {
        assert(a@ =~= b@);
    }
    true
}

/// Derives the challenge for the first batches of an opening.
fn recover_challenge(opening: &Opening, batch_count: usize, text: &str) -> (ret: Scalar)
    requires
        0 < batch_count <= opening_roots(*opening).len(),
    ensures
        ret.value() == challenge(
            opening_setup(*opening).kind,
            opening_roots(*opening).subrange(0, batch_count as int),
            tag(text.spec_bytes()),
        ),
{
    outside_challenge_at(opening, batch_count, hash_to_scalar(text.as_bytes()))
}

/// Returns the values at an opened position.
fn opened_values(opening: &Opening, z: Scalar) -> (ret: Vec<Scalar>)
    requires
        opening_points(*opening).contains_key(z.value()),
    ensures
        residues(ret@) == opening_points(*opening)[z.value()],
{
    match outside_points(opening, z) {
        Some(values) => values,
        None => Vec::new(),
    }
}

/// Evaluates a polynomial whose coefficients are part of a list.
fn evaluate_range(values: &Vec<Scalar>, start: usize, end: usize, x: Scalar) -> (ret: Scalar)
    requires
        start <= end <= values@.len(),
    ensures
        ret.value() == poly_eval(
            residues(values@).subrange(start as int, end as int),
            x.value(),
        ) % Scalar::modulus(),
{
    let ghost p = Scalar::modulus();
    let ghost list = residues(values@);
    let mut ret = zero::<Scalar>();
    let mut i: usize = end;
    proof {
        Scalar::lemma_modulus();
        lemma_small(0, p);
        assert(list.subrange(end as int, end as int) =~= seq![]);
    }
    while i > start
        invariant
            start <= i <= end <= values@.len(),
            p == Scalar::modulus(),
            p > 1,
            list == residues(values@),
            ret.value() == poly_eval(list.subrange(i as int, end as int), x.value()) % p,
        decreases i,
    {
        i -= 1;
        proof {
            let part = list.subrange(i as int, end as int);
            let rest = list.subrange(i + 1, end as int);
            assert(part.drop_first() =~= rest);
            let y = poly_eval(rest, x.value());
            lemma_mod_mul(y, x.value(), p);
            assert(y * x.value() == x.value() * y) by (nonlinear_arith);
            lemma_mod_add(x.value() * y, list[i as int], p);
        }
        ret = ret.times(x).plus(values[i]);
    }
    ret
}

/// Multiplies the factors of the permutation argument for the opened values at `x`: the components
/// of the result are the numerator and the denominator.
fn permutation_products(
    values: &Vec<Scalar>,
    sigma_offset: usize,
    columns_offset: usize,
    count: usize,
    x: Scalar,
    beta: Scalar,
    gamma: Scalar,
) -> (ret: (Scalar, Scalar))
    requires
        sigma_offset + count <= values@.len(),
        columns_offset + count <= values@.len(),
    ensures
        ret.0.value() == identity_product(
            residues(values@).subrange(columns_offset as int, columns_offset + count),
            x.value(),
            beta.value(),
            gamma.value(),
        ) % Scalar::modulus(),
        ret.1.value() == sigma_product(
            residues(values@).subrange(columns_offset as int, columns_offset + count),
            residues(values@).subrange(sigma_offset as int, sigma_offset + count),
            beta.value(),
            gamma.value(),
        ) % Scalar::modulus(),
{
    let ghost p = Scalar::modulus();
    let ghost list = residues(values@);
    let ghost (b, c) = (beta.value(), gamma.value());
    let ghost columns = list.subrange(columns_offset as int, columns_offset + count);
    let ghost sigmas = list.subrange(sigma_offset as int, sigma_offset + count);
    let total: usize = values.len();
    let generator = multiplicative_generator();
    let mut numerator = one::<Scalar>();
    let mut denominator = one::<Scalar>();
    let mut generator_power = one::<Scalar>();
    let mut j: usize = 0;
    proof {
        Scalar::lemma_modulus();
        lemma_small(1, p);
        lemma_pow0(5);
        assert(columns.subrange(0, 0) =~= seq![]);
    }
    while j < count
        invariant
            j <= count,
            p == Scalar::modulus(),
            p > 1,
            total == values@.len(),
            sigma_offset + count <= total,
            columns_offset + count <= total,
            list == residues(values@),
            b == beta.value(),
            c == gamma.value(),
            columns == list.subrange(columns_offset as int, columns_offset + count),
            sigmas == list.subrange(sigma_offset as int, sigma_offset + count),
            generator.value() == 5,
            generator_power.value() == pow(5, j as nat) % p,
            numerator.value() == identity_product(columns.subrange(0, j as int), x.value(), b, c)
                % p,
            denominator.value() == sigma_product(columns.subrange(0, j as int), sigmas, b, c) % p,
        decreases count - j,
    {
        let value = values[columns_offset + j];
        let sigma = values[sigma_offset + j];
        let position = generator_power.times(x);
        let factor = value.plus(beta.times(position)).plus(gamma);
        let divisor = value.plus(beta.times(sigma)).plus(gamma);
        proof {
            let prefix = columns.subrange(0, j + 1);
            assert(prefix.drop_last() =~= columns.subrange(0, j as int));
            assert(prefix.last() == value.value());
            assert(sigmas[j as int] == sigma.value());
            let g = pow(5, j as nat);
            let w = g * x.value();
            lemma_mod_mul(g, x.value(), p);
            lemma_mod_mul(b, w, p);
            lemma_mod_add(value.value(), b * w, p);
            lemma_mod_add(value.value() + b * w, c, p);
            lemma_mod_add(value.value(), b * sigma.value(), p);
            lemma_mod_add(value.value() + b * sigma.value(), c, p);
            let f = cell_factor(value.value(), w, b, c);
            let q = cell_factor(value.value(), sigma.value(), b, c);
            assert(factor.value() == f % p);
            assert(divisor.value() == q % p);
            lemma_mod_mul(
                identity_product(columns.subrange(0, j as int), x.value(), b, c),
                f,
                p,
            );
            lemma_mod_mul(sigma_product(columns.subrange(0, j as int), sigmas, b, c), q, p);
            lemma_pow_adds(5, j as nat, 1);
            lemma_pow1(5);
            lemma_mod_mul(g, 5, p);
        }
        numerator = numerator.times(factor);
        denominator = denominator.times(divisor);
        generator_power = generator_power.times(generator);
        j += 1;
    }
    proof {
        assert(columns.subrange(0, columns.len() as int) =~= columns);
    }
    (numerator, denominator)
}

/// Calculates the value of the Lagrange basis polynomial that is 1 at the first element of the
/// evaluation domain of size `n` and 0 at the others, or `None` if `x` is that element.
fn lagrange0(x: Scalar, n: usize) -> (ret: Option<Scalar>)
    requires
        0 < n <= max_domain_size(),
    ensures
        ret is Some <==> x.value() != 1,
        ret matches Some(value) ==> value.value() == lagrange0_at(x.value(), n as int)
            && invertible((n * (x.value() - 1)) % Scalar::modulus(), Scalar::modulus()),
{
    let ghost p = Scalar::modulus();
    let size = from_const(n as u64);
    let reciprocal = size.invert();
    let difference = x.minus(one::<Scalar>());
    let denominator = size.times(difference);
    proof {
        Scalar::lemma_modulus();
        x.lemma_value_bounds();
        let v = x.value();
        lemma_mod_mul(n as int, v - 1, p);
        assert(denominator.value() == (n * (v - 1)) % p);
        if v == 1 {
            assert(n * (v - 1) == 0) by (nonlinear_arith)
                requires
                    v == 1,
            ;
            lemma_small(0, p);
        } else if denominator.value() == 0 {
            assert(reciprocal is Some);
            lemma_zero_factor(n as int, v - 1, (reciprocal->Some_0).value(), p);
            if v == 0 {
                assert((-1int) % p == p - 1) by (nonlinear_arith)
                    requires
                        p > 1,
                ;
            } else {
                lemma_small(v - 1, p);
            }
        }
    }
    match denominator.invert() {
        None => None,
        Some(inverse) => {
            proof {
                lemma_inverse_unique(denominator.value(), inverse.value(), p);
                lemma_mod_sub(pow(x.value(), n as nat), 1, p);
                lemma_mod_mul(pow(x.value(), n as nat) - 1, inverse.value(), p);
            }
            Some(x.pow(n).minus(one::<Scalar>()).times(inverse))
        },
    }
}

/// An invertible factor does not make a product zero.
proof fn lemma_zero_factor(n: int, x: int, r: int, p: int)
    requires
        p > 1,
        is_inverse(n, r, p),
        (n * x) % p == 0,
    ensures
        x % p == 0,
{
    lemma_small(0, p);
    lemma_small(1, p);
    lemma_cong_mul(r, r, n * x, 0, p);
    assert(r * 0 == 0);
    assert(r * (n * x) == (n * r) * x) by (nonlinear_arith);
    lemma_cong_mul(n * r, 1, x, x, p);
    assert(1 * x == x);
}

/// The rotations of the variables of a gate are among those that are opened.
pub proof fn lemma_rotation_opened(m: CircuitModel, g: int, w: Variable)
    requires
        0 <= g < m.gates.len(),
        m.placement_wf(m.gates[g]),
        terms_have(shift_terms(m.gates[g].terms, m.gates[g].column), w),
    ensures
        opened_set(m.gates).contains(w.rotation),
        w.column_index < m.columns,
{
    let placed = m.gates[g];
    lemma_placed_gate(m, placed);
    let v = choose|v: Variable| #[trigger]
        terms_have(placed.terms, v) && w == crate::variable::shift_variable(v, placed.column);
    assert(terms_rotations(placed.terms).contains(w.rotation));
    assert(is_opened_rotation(m.gates, w.rotation));
}

impl<H: HashBackend> CompressedCircuit<H> {
    /// Evaluates the combined gate constraint on the opened values.
    fn evaluate_gates(
        &self,
        opening: &Opening,
        here: &Vec<Scalar>,
        xi: Scalar,
        omega: Scalar,
        omega_inv: Scalar,
        delta: Scalar,
        Ghost(ch): Ghost<Challenges>,
    ) -> (ret: Scalar)
        requires
            self.model().countable(),
            ch.xi == xi.value(),
            omega.value() == domain_root(self.model().size),
            is_inverse(omega.value(), omega_inv.value(), Scalar::modulus()),
            self.model().opens_rotations(ch, *opening),
            residues(here@) == opening_points(*opening)[self.model().point(ch, 0)],
            here@.len() == self.model().num_polynomials(),
            forall|z: int| #[trigger]
                opening_points(*opening).contains_key(z) ==> opening_points(*opening)[z].len()
                    == self.model().num_polynomials(),
        ensures
            ret.value() == gate_sum(
                self.model().gates,
                residues(here@),
                self.model().opened_valuation(ch, *opening),
                delta.value(),
            ) % Scalar::modulus(),
    {
        let ghost c = self.model();
        let ghost p = Scalar::modulus();
        let ghost d = delta.value();
        let ghost values = c.opened_valuation(ch, *opening);
        let ghost list = residues(here@);
        proof {
            use_type_invariant(self);
            Scalar::lemma_modulus();
            lemma_pow0(d);
            lemma_small(1, p);
            lemma_small(0, p);
            assert(c.gates.subrange(0, 0) =~= seq![]);
        }
        let ghost m = choose|m: CircuitModel| #[trigger] is_source(m, c);
        let mut result = zero::<Scalar>();
        let mut power = one::<Scalar>();
        let mut g: usize = 0;
        while g < self.gates.len()
            invariant
                g <= self.gates.len(),
                c == self.model(),
                self.wf(),
                is_source(m, c),
                c.countable(),
                p == Scalar::modulus(),
                p > 1,
                d == delta.value(),
                ch.xi == xi.value(),
                values == c.opened_valuation(ch, *opening),
                list == residues(here@),
                here@.len() == c.num_polynomials(),
                omega.value() == domain_root(c.size),
                is_inverse(omega.value(), omega_inv.value(), p),
                c.opens_rotations(ch, *opening),
                forall|z: int| #[trigger]
                    opening_points(*opening).contains_key(z) ==> opening_points(*opening)[z].len()
                        == c.num_polynomials(),
                power.value() == pow(d, g as nat) % p,
                result.value() == gate_sum(c.gates.subrange(0, g as int), list, values, d) % p,
            decreases self.gates.len() - g,
        {
            let ghost placed = c.gates[g as int];
            let ghost t = shift_terms(placed.terms, placed.column);
            let gate = &self.gates[g];
            proof {
                assert(self.gates@[g as int].remapped@ == t);
                assert(m.placement_wf(m.gates[g as int]));
                lemma_placed_gate(m, placed);
                lemma_num_chunks(m);
            }
            let variables = gate.remapped.get_free_variables();
            let mut substitution: Assignment<Scalar> = Assignment::new();
            let mut i: usize = 0;
            while i < variables.len()
                invariant
                    i <= variables.len(),
                    c == self.model(),
                    is_source(m, c),
                    c.countable(),
                    g < self.gates@.len(),
                    placed == c.gates[g as int],
                    t == shift_terms(placed.terms, placed.column),
                    m.placement_wf(placed),
                    quotient_chunks(m.size, m.columns, m.gates) >= 0,
                    p == Scalar::modulus(),
                    ch.xi == xi.value(),
                    values == c.opened_valuation(ch, *opening),
                    omega.value() == domain_root(c.size),
                    is_inverse(omega.value(), omega_inv.value(), p),
                    c.opens_rotations(ch, *opening),
                    forall|z: int| #[trigger]
                        opening_points(*opening).contains_key(z) ==> opening_points(
                            *opening,
                        )[z].len() == c.num_polynomials(),
                    forall|v: Variable| #[trigger] variables@.contains(v) <==> terms_have(t, v),
                    forall|k: int|
                        0 <= k < i ==> substitution@.contains_key(#[trigger] variables@[k])
                            && substitution@[variables@[k]].value() == values(variables@[k]),
                decreases variables.len() - i,
            {
                let variable = variables[i];
                proof {
                    assert(variables@.contains(variable));
                    lemma_rotation_opened(m, g as int, variable);
                    assert(c.opens_rotation(ch, *opening, variable.rotation));
                }
                let z = rotate_point(
                    self.degree_bound,
                    xi,
                    omega,
                    omega_inv,
                    variable.rotation(),
                );
                let opened = opened_values(opening, z);
                proof {
                    assert(residues(opened@).len() == c.num_polynomials());
                }
                let value =
                    opened[self.num_selectors + self.num_columns + variable.column_index()];
                proof {
                    assert(residues(opened@)[c.selectors + c.columns + variable.column_index]
                        == value.value());
                }
                substitution.insert(variable, value);
                i += 1;
            }
            proof {
                assert forall|v: Variable| #[trigger]
                    terms_have(t, v) implies substitution@.contains_key(v) && valuation(
                    substitution@,
                )(v) % p == values(v) % p by {
                    assert(variables@.contains(v));
                    let k = choose|k: int| 0 <= k < variables@.len() && variables@[k] == v;
                    assert(substitution@.contains_key(variables@[k]));
                }
                lemma_terms_value_cong(t, valuation(substitution@), values, p);
                assert(0 <= placed.selector < m.active.len());
            }
            let value = gate.remapped.evaluate(&substitution);
            let selector = here[gate.selector_index];
            proof {
                let prefix = c.gates.subrange(0, g + 1);
                assert(prefix.drop_last() =~= c.gates.subrange(0, g as int));
                assert(prefix.last() == placed);
                let s = list[placed.selector];
                assert(s == selector.value());
                let v = terms_value(t, values, p);
                let w = pow(d, g as nat);
                lemma_mod_mul(s, v, p);
                lemma_mod_mul(s * v, w, p);
                lemma_mod_add(
                    gate_sum(c.gates.subrange(0, g as int), list, values, d),
                    s * v * w,
                    p,
                );
                lemma_pow_adds(d, g as nat, 1);
                lemma_pow1(d);
                lemma_mod_mul(w, d, p);
            }
            result = result.plus(selector.times(value).times(power));
            power = power.times(delta);
            g += 1;
        }
        proof {
            assert(c.gates.subrange(0, c.gates.len() as int) =~= c.gates);
        }
        result
    }

    /// Indicates whether proofs for the circuit can be verified: the degrees of its gates must not be
    /// so high that the chunks of the quotient cannot be counted.
    pub fn is_verifiable(&self) -> (ret: bool)
        ensures
            ret == self.model().countable(),
    {
        proof {
            use_type_invariant(self);
            let m = choose|m: CircuitModel| #[trigger] is_source(m, self.model());
            assert forall|i: int| 0 <= i < self.gates@.len() implies canonical(
                (#[trigger] self.gates@[i]).constraint@,
            ) by {
                assert(m.placement_wf(m.gates[i]));
            }
        }
        check_counts(self.degree_bound, self.num_columns, &self.gates, self.num_selectors)
    }

    /// Calculates the number of chunks the quotient was split into.
    ///
    /// See [`quotient_degree_bound`](crate::plonk::quotient_degree_bound) for details.
    fn get_num_quotient_chunks(&self) -> (ret: usize)
        requires
            self.model().countable(),
        ensures
            ret == self.model().chunks(),
    {
        proof {
            use_type_invariant(self);
            let m = choose|m: CircuitModel| #[trigger] is_source(m, self.model());
            assert forall|i: int| 0 <= i < self.gates@.len() implies canonical(
                (#[trigger] self.gates@[i]).constraint@,
            ) by {
                assert(m.placement_wf(m.gates[i]));
            }
        }
        let degree: usize = match max_degree(&self.gates) {
            Some(degree) => degree,
            None => 0,
        };
        num_quotient_chunks(self.degree_bound, self.num_columns, degree)
    }

    /// Checks that the polynomials are opened at the positions of all rotations.
    fn check_rotations(
        &self,
        opening: &Opening,
        xi: Scalar,
        omega: Scalar,
        omega_inv: Scalar,
        Ghost(ch): Ghost<Challenges>,
    ) -> (ret: Result<(), isize>)
        requires
            ch.xi == xi.value(),
            omega.value() == domain_root(self.model().size),
            is_inverse(omega.value(), omega_inv.value(), Scalar::modulus()),
        ensures
            match ret {
                Ok(()) => self.model().opens_rotations(ch, *opening),
                Err(rotation) => is_first_missing_rotation(self.model(), ch, *opening, rotation),
            },
    {
        let ghost c = self.model();
        let rotations = collect_rotations(&self.gates);
        let set = rotation_set(&rotations);
        let mut i: usize = 0;
        while i < set.len()
            invariant
                i <= set.len(),
                c == self.model(),
                ch.xi == xi.value(),
                omega.value() == domain_root(c.size),
                is_inverse(omega.value(), omega_inv.value(), Scalar::modulus()),
                strictly_increasing(set@),
                set@.to_set() == opened_set(c.gates),
                forall|k: int|
                    0 <= k < i ==> c.opens_rotation(ch, *opening, #[trigger] set@[k]),
            decreases set.len() - i,
        {
            let rotation: isize = set[i];
            let z = rotate_point(self.degree_bound, xi, omega, omega_inv, rotation);
            match outside_points(opening, z) {
                Some(_) => {},
                None => {
                    proof {
                        assert(set@.to_set().contains(rotation));
                        assert forall|r: isize|
                            opened_set(c.gates).contains(r) && r
                                < rotation implies #[trigger] c.opens_rotation(
                            ch,
                            *opening,
                            r,
                        ) by {
                            assert(set@.to_set().contains(r));
                            assert(set@.contains(r));
                            let k = choose|k: int| 0 <= k < set@.len() && set@[k] == r;
                            if k >= i {
                                assert(set@[i as int] <= set@[k]);
                            }
                        }
                    }
                    return Err(rotation);
                },
            }
            i += 1;
        }
        proof {
            assert forall|r: isize| opened_set(c.gates).contains(r) implies #[trigger] c.opens_rotation(
                ch,
                *opening,
                r,
            ) by {
                assert(set@.to_set().contains(r));
                assert(set@.contains(r));
                let k = choose|k: int| 0 <= k < set@.len() && set@[k] == r;
                assert(c.opens_rotation(ch, *opening, set@[k]));
            }
        }
        Ok(())
    }

    /// Checks that the polynomials are opened at the positions of all revealed rows.
    fn check_rows(&self, opening: &Opening, omega: Scalar) -> (ret: Result<(), usize>)
        requires
            omega.value() == domain_root(self.model().size),
        ensures
            match ret {
                Ok(()) => self.model().opens_rows(*opening),
                Err(row) => is_first_missing_row(self.model(), *opening, row),
            },
    {
        let ghost c = self.model();
        let mut i: usize = 0;
        while i < self.public_rows.len()
            invariant
                i <= self.public_rows.len(),
                c == self.model(),
                omega.value() == domain_root(c.size),
                forall|k: int| 0 <= k < i ==> c.opens_row(*opening, #[trigger] c.public_rows[k]),
            decreases self.public_rows.len() - i,
        {
            let row: usize = self.public_rows[i];
            match outside_points(opening, omega.pow(row)) {
                Some(_) => {},
                None => {
                    proof {
                        assert(c.public_rows[i as int] == row);
                    }
                    return Err(row);
                },
            }
            i += 1;
        }
        Ok(())
    }

    /// Collects the revealed values.
    fn public_values(&self, opening: &Opening, omega: Scalar) -> (ret: Vec<(Cell, Scalar)>)
        requires
            self.model().countable(),
            omega.value() == domain_root(self.model().size),
            self.model().opens_rows(*opening),
            forall|z: int| #[trigger]
                opening_points(*opening).contains_key(z) ==> opening_points(*opening)[z].len()
                    == self.model().num_polynomials(),
        ensures
            self.model().is_public_list(ret@, *opening),
    {
        let ghost c = self.model();
        let ghost n = c.columns;
        proof {
            use_type_invariant(self);
        }
        let ghost m = choose|m: CircuitModel| #[trigger] is_source(m, c);
        proof {
            lemma_num_chunks(m);
        }
        let mut ret: Vec<(Cell, Scalar)> = Vec::new();
        let mut i: usize = 0;
        proof {
            assert(0 * n == 0);
        }
        while i < self.public_rows.len()
            invariant
                i <= self.public_rows.len(),
                c == self.model(),
                n == c.columns,
                n > 0,
                c.chunks() >= 0,
                c.num_polynomials() <= usize::MAX,
                omega.value() == domain_root(c.size),
                c.opens_rows(*opening),
                forall|z: int| #[trigger]
                    opening_points(*opening).contains_key(z) ==> opening_points(*opening)[z].len()
                        == c.num_polynomials(),
                ret@.len() == i * n,
                forall|x: int, y: int|
                    0 <= x < i && 0 <= y < n ==> #[trigger] is_public_entry(
                        ret@[x * n + y],
                        c.public_rows[x],
                        y,
                        opening_points(*opening)[row_point(c.size, c.public_rows[x])][c.selectors
                            + n + y],
                    ),
            decreases self.public_rows.len() - i,
        {
            let row: usize = self.public_rows[i];
            proof {
                assert(c.opens_row(*opening, c.public_rows[i as int]));
                assert((i + 1) * n == i * n + n) by (nonlinear_arith);
            }
            let values = opened_values(opening, omega.pow(row));
            let ghost expected = opening_points(*opening)[row_point(c.size, row)];
            let ghost start = ret@.len() as int;
            let mut j: usize = 0;
            proof {
                assert(residues(values@) == expected);
                assert(values@.len() == c.num_polynomials());
            }
            while j < self.num_columns
                invariant
                    j <= self.num_columns,
                    c == self.model(),
                    n == c.columns,
                    c.chunks() >= 0,
                    c.num_polynomials() <= usize::MAX,
                    i < self.public_rows@.len(),
                    row == c.public_rows[i as int],
                    expected == opening_points(*opening)[row_point(c.size, row)],
                    residues(values@) == expected,
                    values@.len() == c.num_polynomials(),
                    start == i * n,
                    ret@.len() == start + j,
                    forall|x: int, y: int|
                        0 <= x < i && 0 <= y < n ==> #[trigger] is_public_entry(
                            ret@[x * n + y],
                            c.public_rows[x],
                            y,
                            opening_points(*opening)[row_point(
                                c.size,
                                c.public_rows[x],
                            )][c.selectors + n + y],
                        ),
                    forall|y: int|
                        0 <= y < j ==> #[trigger] is_public_entry(
                            ret@[start + y],
                            row,
                            y,
                            expected[c.selectors + n + y],
                        ),
                decreases self.num_columns - j,
            {
                let value = values[self.num_selectors + self.num_columns + j];
                let ghost before = ret@;
                ret.push((Cell::new(row, j), value));
                proof {
                    assert(residues(values@)[c.selectors + n + j] == value.value());
                    assert forall|x: int, y: int|
                        0 <= x < i && 0 <= y < n implies #[trigger] is_public_entry(
                        ret@[x * n + y],
                        c.public_rows[x],
                        y,
                        opening_points(*opening)[row_point(c.size, c.public_rows[x])][c.selectors
                            + n + y],
                    ) by {
                        assert(0 <= x * n + y < i * n) by (nonlinear_arith)
                            requires
                                0 <= x < i,
                                0 <= y < n,
                        ;
                        assert(ret@[x * n + y] == before[x * n + y]);
                        assert(is_public_entry(
                            before[x * n + y],
                            c.public_rows[x],
                            y,
                            opening_points(*opening)[row_point(
                                c.size,
                                c.public_rows[x],
                            )][c.selectors + n + y],
                        ));
                    }
                    assert forall|y: int| 0 <= y < j + 1 implies #[trigger] is_public_entry(
                        ret@[start + y],
                        row,
                        y,
                        expected[c.selectors + n + y],
                    ) by {
                        if y < j {
                            assert(ret@[start + y] == before[start + y]);
                            assert(is_public_entry(
                                before[start + y],
                                row,
                                y,
                                expected[c.selectors + n + y],
                            ));
                        }
                    }
                }
                j += 1;
            }
            proof {
                assert forall|x: int, y: int|
                    0 <= x < i + 1 && 0 <= y < n implies #[trigger] is_public_entry(
                    ret@[x * n + y],
                    c.public_rows[x],
                    y,
                    opening_points(*opening)[row_point(c.size, c.public_rows[x])][c.selectors + n
                        + y],
                ) by {
                    if x == i {
                        assert(is_public_entry(
                            ret@[start + y],
                            row,
                            y,
                            expected[c.selectors + n + y],
                        ));
                    }
                }
            }
            i += 1;
        }
        ret
    }
}

/// The number of chunks and the number of polynomials are in range.
proof fn lemma_num_chunks(m: CircuitModel)
    requires
        m.wf(),
        counts_fit(m.size, m.columns, m.gates, m.active.len() as int),
    ensures
        quotient_chunks(m.size, m.columns, m.gates) >= 0,
        m.selectors.len() + 2 * m.columns + 1 + quotient_chunks(m.size, m.columns, m.gates)
            <= usize::MAX,
{
    lemma_quotient_bound_nonnegative(m.size, m.columns, m.gates);
    let b = quotient_bound(m.size, m.columns, m.gates);
    let n = m.size;
    assert((b + n - 1) / n >= 0) by (nonlinear_arith)
        requires
            b >= 0,
            n >= 4,
    ;
}

impl<H: HashBackend> CompressedCircuit<H> {
    /// Checks the equation between the full constraint and the quotient on the opened values, or
    /// returns `None` if `xi` is 1.
    fn check_equation(
        &self,
        opening: &Opening,
        xi: Scalar,
        omega: Scalar,
        omega_inv: Scalar,
        num_quotient_chunks: usize,
        Ghost(ch): Ghost<Challenges>,
    ) -> (ret: Option<bool>)
        requires
            self.model().countable(),
            opening_roots(*opening).len() == 4,
            opening_setup(*opening).kind == H::spec_kind(),
            ch == challenges(self.model().setup, opening_roots(*opening)),
            ch.xi == xi.value(),
            omega.value() == domain_root(self.model().size),
            is_inverse(omega.value(), omega_inv.value(), Scalar::modulus()),
            num_quotient_chunks == self.model().chunks(),
            self.model().opens_rotations(ch, *opening),
            forall|z: int| #[trigger]
                opening_points(*opening).contains_key(z) ==> opening_points(*opening)[z].len()
                    == self.model().num_polynomials(),
        ensures
            ret is None <==> ch.xi == 1,
            ret matches Some(holds) ==> invertible(
                (self.model().size * (ch.xi - 1)) % Scalar::modulus(),
                Scalar::modulus(),
            ) && holds == self.model().equation_holds(ch, *opening),
    {
        let ghost c = self.model();
        let ghost p = Scalar::modulus();
        let ghost o = *opening;
        proof {
            use_type_invariant(self);
            Scalar::lemma_modulus();
        }
        let ghost m = choose|m: CircuitModel| #[trigger] is_source(m, c);
        proof {
            lemma_num_chunks(m);
            assert(opened_set(c.gates).contains(0isize) && opened_set(c.gates).contains(1isize));
            assert(c.opens_rotation(ch, o, 0isize) && c.opens_rotation(ch, o, 1isize));
        }
        let lagrange = match lagrange0(xi, self.degree_bound) {
            Some(lagrange) => lagrange,
            None => {
                return None;
            },
        };
        let here = opened_values(
            opening,
            rotate_point(self.degree_bound, xi, omega, omega_inv, 0),
        );
        let next = opened_values(
            opening,
            rotate_point(self.degree_bound, xi, omega, omega_inv, 1),
        );
        let ghost at = residues(here@);
        proof {
            assert(at == opening_points(o)[c.point(ch, 0)]);
            assert(residues(next@) == opening_points(o)[c.point(ch, 1)]);
            assert(at.len() == c.num_polynomials());
            assert(residues(next@).len() == c.num_polynomials());
        }
        let delta = recover_challenge(opening, 2, "starkom/plonk/challenge/delta");
        let gate = self.evaluate_gates(
            opening,
            &here,
            xi,
            omega,
            omega_inv,
            delta,
            Ghost(ch),
        );
        let beta = recover_challenge(opening, 2, "starkom/plonk/challenge/beta");
        let gamma = recover_challenge(opening, 2, "starkom/plonk/challenge/gamma");
        let columns_offset: usize = self.num_selectors + self.num_columns;
        let accumulator_offset: usize = columns_offset + self.num_columns;
        let (numerator, denominator) = permutation_products(
            &here,
            self.num_selectors,
            columns_offset,
            self.num_columns,
            xi,
            beta,
            gamma,
        );
        let accumulator = here[accumulator_offset];
        let shifted = next[accumulator_offset];
        let power = xi.pow(self.degree_bound);
        let quotient = evaluate_range(
            &here,
            accumulator_offset + 1,
            accumulator_offset + 1 + num_quotient_chunks,
            power,
        );
        let alpha = recover_challenge(opening, 3, "starkom/plonk/challenge/alpha");
        let fixpoint = accumulator.minus(one::<Scalar>()).times(lagrange);
        let recurrence = shifted.times(denominator).minus(accumulator.times(numerator));
        let total = gate.plus(alpha.times(fixpoint)).plus(alpha.times(alpha).times(recurrence));
        let expected = quotient.times(power.minus(one::<Scalar>()));
        proof {
            let (s, n) = (c.selectors, c.columns);
            let a = alpha.value();
            assert(accumulator.value() == at[s + n + n]);
            assert(shifted.value() == residues(next@)[s + n + n]);
            let values = seq![
                gate_sum(c.gates, at, c.opened_valuation(ch, o), ch.delta),
                at[s + n + n],
                residues(next@)[s + n + n],
                identity_product(at.subrange(s + n, s + n + n), ch.xi, ch.beta, ch.gamma),
                sigma_product(
                    at.subrange(s + n, s + n + n),
                    at.subrange(s, s + n),
                    ch.beta,
                    ch.gamma,
                ),
                lagrange0_at(ch.xi, c.size),
            ];
            let reduced = seq![
                gate.value(),
                accumulator.value(),
                shifted.value(),
                numerator.value(),
                denominator.value(),
                lagrange.value(),
            ];
            assert forall|i: int| 0 <= i < 6 implies (#[trigger] reduced[i]) % p == values[i]
                % p by {
                vstd::arithmetic::div_mod::lemma_mod_twice(values[i], p);
            }
            lemma_full_constraint_cong(reduced, values, a, p);
            lemma_full_constraint_mod(reduced, a, p);
            assert(total.value() == full_constraint(
                reduced[0],
                reduced[1],
                reduced[2],
                reduced[3],
                reduced[4],
                reduced[5],
                a,
            ) % p);
            let x = pow(ch.xi, c.size as nat);
            let q = at.subrange(s + n + n + 1, s + n + n + 1 + c.chunks());
            vstd::arithmetic::div_mod::lemma_mod_twice(x, p);
            crate::poly::lemma_eval_cong(q, power.value(), x, p);
            lemma_mod_sub(x, 1, p);
            lemma_mod_mul(poly_eval(q, x), x - 1, p);
        }
        Some(equal(total, expected))
    }

    /// Verifies a [`Proof`], returning the list of proven public values if successful or an error
    /// otherwise.
    ///
    /// The returned list will have exactly `N` entries for every row in [`Self::public_rows`], with
    /// `N` being the [number of columns](`Self::num_columns`).
    pub fn verify(&self, proof: &Proof<H>) -> (ret: Result<Vec<(Cell, Scalar)>, VerificationError>)
        requires
            self.model().countable(),
        ensures
            is_verify_result(ret, self.model(), proof.opening()),
    {
        let ghost c = self.model();
        let opening = proof.get_opening();
        let ghost o = *opening;
        proof {
            use_type_invariant(self);
        }
        let ghost m = choose|m: CircuitModel| #[trigger] is_source(m, c);
        proof {
            lemma_num_chunks(m);
        }
        let roots = outside_tree_roots(opening);
        proof {
            assert(hash_lists(roots@).len() == roots@.len());
        }
        if roots.len() != 4 {
            return Err(VerificationError::TreeRoots { got: roots.len(), want: 4 });
        }
        proof {
            assert(hash_lists(roots@)[0] == roots@[0]@);
        }
        if !same_hash(&roots[0], &self.circuit_commitment) {
            return Err(
                VerificationError::CircuitCommitment {
                    got_root: roots[0],
                    want_root: self.circuit_commitment,
                },
            );
        }
        if proof.degree_bound() != self.degree_bound {
            return Err(
                VerificationError::DegreeBound {
                    got: proof.degree_bound(),
                    want: self.degree_bound,
                },
            );
        }
        if proof.blowup_log2() != self.options.blowup_log2 {
            proof {
                lemma_blowup_fits(opening_setup(o));
                lemma_blowup_fits(c.setup);
            }
            return Err(
                VerificationError::Blowup {
                    got: extended_size(1, proof.blowup_log2()),
                    want: extended_size(1, self.options.blowup_log2),
                },
            );
        }
        let num_quotient_chunks: usize = self.get_num_quotient_chunks();
        let expected_polynomials: usize = self.num_selectors + self.num_columns + self.num_columns
            + 1 + num_quotient_chunks;
        if proof.num_polys() != expected_polynomials {
            return Err(
                VerificationError::Polynomials {
                    got: proof.num_polys(),
                    want: expected_polynomials,
                },
            );
        }
        let omega = domain_element(self.degree_bound);
        let omega_inv = invert_root(omega, self.degree_bound);
        let xi = recover_challenge(opening, 4, "starkom/plonk/challenge/xi");
        let ghost ch = challenges(c.setup, opening_roots(o));
        match self.check_rotations(opening, xi, omega, omega_inv, Ghost(ch)) {
            Ok(()) => {},
            Err(rotation) => {
                return Err(VerificationError::MissingRotation { rotation });
            },
        }
        match self.check_rows(opening, omega) {
            Ok(()) => {},
            Err(row) => {
                return Err(VerificationError::MissingRow { row });
            },
        }
        match outside_verify(opening) {
            None => {},
            Some(reason) => {
                return Err(VerificationError::InvalidOpening { reason });
            },
        }
        match self.check_equation(
            opening,
            xi,
            omega,
            omega_inv,
            num_quotient_chunks,
            Ghost(ch),
        ) {
            None => Err(VerificationError::Degenerate),
            Some(false) => Err(VerificationError::ConstraintViolation),
            Some(true) => Ok(self.public_values(opening, omega)),
        }
    }
}

/// The blowup factor is in range.
proof fn lemma_blowup_fits(setup: Setup)
    requires
        setup.valid(),
    ensures
        1 * pow2(setup.blowup_log2 as nat) <= usize::MAX,
{
    let k = choose|k: nat| setup.degree_bound == #[trigger] pow2(k);
    vstd::arithmetic::power2::lemma_pow2_pos(k);
    let (d, b) = (setup.degree_bound, pow2(setup.blowup_log2 as nat) as int);
    vstd::arithmetic::power2::lemma_pow2_pos(setup.blowup_log2 as nat);
    assert(b <= d * b) by (nonlinear_arith)
        requires
            d >= 1,
            b >= 0,
    ;
}

/// Arithmetic modulo the order of the field calculates the full constraint.
proof fn lemma_full_constraint_mod(v: Seq<int>, a: int, p: int)
    requires
        p > 0,
        v.len() == 6,
    ensures
        ((v[0] + (a * (((v[1] - 1) % p * v[5]) % p)) % p) % p + (((a * a) % p) * ((((v[2] * v[4])
            % p) - ((v[1] * v[3]) % p)) % p)) % p) % p == full_constraint(
            v[0],
            v[1],
            v[2],
            v[3],
            v[4],
            v[5],
            a,
        ) % p,
{
    let f = (v[1] - 1) * v[5];
    let r = v[2] * v[4] - v[1] * v[3];
    lemma_mod_mul(v[1] - 1, v[5], p);
    lemma_mod_mul(a, f, p);
    lemma_mod_add(v[0], a * f, p);
    lemma_mod_sub(v[2] * v[4], v[1] * v[3], p);
    lemma_mod_mul(a * a, r, p);
    lemma_mod_add(v[0] + a * f, (a * a) * r, p);
}

impl Circuit {
    /// Verifies a [`Proof`].
    ///
    /// See [`CompressedCircuit::verify`].
    pub fn verify<H: HashBackend>(&self, proof: &Proof<H>, options: ProvingOptions) -> (ret: Result<
        Vec<(Cell, Scalar)>,
        VerificationError,
    >)
        requires
            committable_with(self.model(), options),
            counts_fit(
                self.model().size,
                self.model().columns,
                self.model().gates,
                self.model().active.len() as int,
            ),
        ensures
            self.model().wf(),
            is_verify_result(
                ret,
                compress(self.model(), proof_setup(H::spec_kind(), self.model(), options)),
                proof.opening(),
            ),
    {
        proof {
            use_type_invariant(self);
        }
        self.as_compressed::<H>(options).verify(proof)
    }
}

/// Tells whether two lists of gate instances stand for the same placements.
fn same_gates(a: &Vec<GateInstance>, b: &Vec<GateInstance>) -> (ret: bool)
    ensures
        ret == (placements(a@) == placements(b@)),
{
    let ghost (x, y) = (placements(a@), placements(b@));
    if a.len() != b.len() {
        assert(x.len() != y.len());
        return false;
    }
    let mut i: usize = 0;
    while i < a.len()
        invariant
            i <= a.len(),
            a@.len() == b@.len(),
            x == placements(a@),
            y == placements(b@),
            forall|k: int| 0 <= k < i ==> (#[trigger] x[k]) == y[k],
        decreases a.len() - i,
    {
        if a[i].column_index != b[i].column_index || a[i].selector_index != b[i].selector_index || !(
        a[i].constraint == b[i].constraint) {
            assert(x[i as int] != y[i as int]);
            return false;
        }
        i += 1;
    }
    assert(x =~= y);
    true
}

/// Tells whether two lists of rows are the same.
fn same_rows(a: &Vec<usize>, b: &Vec<usize>) -> (ret: bool)
    ensures
        ret == (a@ == b@),
{
    if a.len() != b.len() {
        return false;
    }
    let mut i: usize = 0;
    while i < a.len()
        invariant
            i <= a.len(),
            a@.len() == b@.len(),
            forall|k: int| 0 <= k < i ==> (#[trigger] a@[k]) == b@[k],
        decreases a.len() - i,
    {
        if a[i] != b[i] {
            return false;
        }
        i += 1;
    }
    assert(a@ =~= b@);
    true
}

impl<H: HashBackend> PartialEq for CompressedCircuit<H> {
    fn eq(&self, other: &Self) -> (ret: bool) {
        self.num_rows == other.num_rows && self.num_blinding_rows == other.num_blinding_rows
            && self.degree_bound == other.degree_bound && self.num_columns == other.num_columns
            && self.options.blowup_log2 == other.options.blowup_log2 && self.num_selectors
            == other.num_selectors && same_gates(&self.gates, &other.gates) && same_rows(
            &self.public_rows,
            &other.public_rows,
        ) && same_hash(&self.circuit_commitment, &other.circuit_commitment)
    }
}

impl<H: HashBackend> vstd::std_specs::cmp::PartialEqSpecImpl for CompressedCircuit<H> {
    open spec fn obeys_eq_spec() -> bool {
        true
    }

    open spec fn eq_spec(&self, other: &Self) -> bool {
        self.model() == other.model()
    }
}

impl<H: HashBackend> Eq for CompressedCircuit<H> {
}

impl<H: HashBackend> Clone for CompressedCircuit<H> {
    fn clone(&self) -> (ret: Self)
        ensures
            ret.model() == self.model(),
    {
        proof {
            use_type_invariant(self);
        }
        let gates = copy_gates(&self.gates);
        let public_rows = copy_rows(&self.public_rows);
        let ghost m = choose|m: CircuitModel| #[trigger] is_source(m, self.model());
        proof {
            assert(is_source(m, self.model()));
            assert forall|i: int| 0 <= i < gates@.len() implies (#[trigger] gates@[i]).remapped@
                == shift_terms(gates@[i].constraint@, gates@[i].column_index as int) by {
                assert(placements(gates@)[i] == placements(self.gates@)[i]);
                assert(self.gates@[i].remapped@ == gates@[i].remapped@);
            }
        }
        CompressedCircuit {
            num_rows: self.num_rows,
            num_blinding_rows: self.num_blinding_rows,
            degree_bound: self.degree_bound,
            num_columns: self.num_columns,
            options: self.options,
            gates,
            num_selectors: self.num_selectors,
            public_rows,
            circuit_commitment: self.circuit_commitment,
            backend: core::marker::PhantomData,
        }
    }
}

} // verus!
