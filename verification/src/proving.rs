//! Proofs that witnesses satisfy circuits.
use crate::argument::{
    beta_text, columns_interpolate, delta_text, early_challenge, fails_by_wraparound, fails_by_zero,
    first_batches, full_constraint, gamma_text, gate_sum, identity_product, is_accumulation,
    is_opened, is_rotated_point, is_row_point, is_split, lemma_challenges, opened_at,
    opens_committed_point, padded, rotated_point, rotated_valuation, row_point, sigma_product, tag,
    Polynomials,
};
use crate::arith::{
    is_inverse, lemma_cong_add, lemma_cong_mul, lemma_inverse_unique, lemma_mod_mul, lemma_small,
};
use crate::cell::Cell;
use crate::expr::canonical;
use crate::field::{equal, multiplicative_generator, zero, Field, Scalar};
use crate::gate_argument::{lemma_product_bound, product_bound};
use crate::model::{
    interpolates, max_gate_degree, opened_set, quotient_bound, quotient_chunks, selector_values,
    sigma_values, CircuitModel,
};
use crate::pcs::{
    opening_accepted, opening_fault, opening_roots, outside_clone, challenge, committable,
    committed, committer_setup, evaluations, merkle_roots, opening_count, opening_points,
    opening_setup, outside_add_batch, outside_blowup_log2, outside_challenge, outside_degree_bound,
    outside_extended_domain_size, outside_new, outside_num_polys, outside_open, Committer,
    HashBackend, HashKind, Opening, Setup,
};
use crate::permutation_argument::is_fixpoint_constraint;
use crate::plonk::{
    append_copies, check_counts, check_domain, collect_rotations, lemma_max_degree_nonnegative,
    max_degree, num_quotient_chunks, quotient_degree_bound, Circuit, ProvingOptions,
};
use crate::poly::{
    coefficient_lists, domain_element, domain_root, is_lagrange0, max_domain_size, poly_eval,
    Polynomial,
};
use crate::utils::{hash_to_scalar, lemma_pow2_monotone, rotation_set};
use crate::variable::magnitude;
use crate::witness::{all_drawn, covers_blinding, is_filled, residues, Witness};
use vstd::arithmetic::power2::{lemma2_to64, lemma_pow2_unfold, pow2};
use vstd::arithmetic::power::pow;
use vstd::prelude::*;
use vstd::string::*;

verus! {

/// Why a proof cannot be made.
#[derive(Debug, Clone, Copy, PartialEq, Eq, Structural)]
pub enum ProvingError {
    /// The witness has a different number of rows.
    Rows {
        got: usize,
        want: usize,
    },
    /// The witness has a different padded number of rows.
    DegreeBound {
        got: usize,
        want: usize,
    },
    /// The witness has a different number of columns.
    Columns {
        got: usize,
        want: usize,
    },
    /// A denominator of the permutation argument is zero.
    ZeroDenominator,
    /// The cells of the witness are not the same as the permuted cells.
    Wraparound,
    /// A constraint is not satisfied.
    ConstraintViolation,
    /// A position at which polynomials have to be opened is in the extended evaluation domain.
    CommittedPoint,
}

/// A chunk of the coefficients of a polynomial.
fn copy_chunk(coefficients: &Vec<Scalar>, start: usize, end: usize) -> (ret: Polynomial)
    requires
        start <= end,
    ensures
        ret@ == padded(residues(coefficients@), end as int).subrange(start as int, end as int),
{
    let ghost full = padded(residues(coefficients@), end as int);
    let mut chunk: Vec<Scalar> = Vec::new();
    let mut i: usize = start;
    while i < end
        invariant
            start <= i <= end,
            full == padded(residues(coefficients@), end as int),
            residues(chunk@) == full.subrange(start as int, i as int),
        decreases end - i,
    {
        let value = if i < coefficients.len() {
            coefficients[i]
        } else {
            zero::<Scalar>()
        };
        let ghost before = residues(chunk@);
        chunk.push(value);
        proof {
            assert(residues(chunk@) =~= before.push(value.value()));
            assert(full.subrange(start as int, i + 1) =~= full.subrange(
                start as int,
                i as int,
            ).push(full[i as int]));
        }
        i += 1;
    }
    Polynomial::with_coefficients(chunk)
}

impl Circuit {
    /// Splits the quotient polynomial in chunks so that it can be batch-committed even though its
    /// degree is much higher than the bound configured in the underlying polynomial commitment
    /// scheme.
    fn split_quotient(&self, quotient: &Polynomial) -> (ret: Vec<Polynomial>)
        requires
            self.model().quotient_fits(),
            quotient@.len() <= quotient_bound(
                self.model().size,
                self.model().columns,
                self.model().gates,
            ),
        ensures
            is_split(
                coefficient_lists(ret@),
                padded(
                    quotient@,
                    quotient_bound(self.model().size, self.model().columns, self.model().gates),
                ),
                self.model().size,
            ),
            ret@.len() == quotient_chunks(
                self.model().size,
                self.model().columns,
                self.model().gates,
            ),
            forall|i: int| 0 <= i < ret@.len() ==> (#[trigger] ret@[i])@.len() <= self.model().size,
    {
        let ghost m = self.model();
        proof {
            use_type_invariant(self);
            assert forall|i: int| 0 <= i < self.gates@.len() implies canonical(
                (#[trigger] self.gates@[i]).constraint@,
            ) by {
                assert(m.placement_wf(m.gates[i]));
            }
        }
        let degree: usize = match max_degree(&self.gates) {
            Some(degree) => degree,
            None => 0,
        };
        let bound: usize = quotient_degree_bound(self.degree_bound, self.num_columns, degree);
        let count: usize = num_quotient_chunks(self.degree_bound, self.num_columns, degree);
        let ghost full = padded(quotient@, bound as int);
        let size: usize = self.degree_bound;
        let mut ret: Vec<Polynomial> = Vec::new();
        let mut i: usize = 0;
        let mut start: usize = 0;
        while i < count
            invariant
                i <= count,
                size == m.size,
                size >= 4,
                full == padded(quotient@, bound as int),
                quotient@.len() <= bound,
                count == (bound + size - 1) / (size as int),
                start == (if i * size < bound {
                    i * size
                } else {
                    bound as int
                }),
                ret@.len() == i,
                forall|k: int|
                    0 <= k < i ==> #[trigger] coefficient_lists(ret@)[k] == full.subrange(
                        k * size,
                        if (k + 1) * size < full.len() {
                            (k + 1) * size
                        } else {
                            full.len() as int
                        },
                    ),
                forall|k: int| 0 <= k < i ==> (#[trigger] ret@[k])@.len() <= size,
            decreases count - i,
        {
            let ghost before = coefficient_lists(ret@);
            proof {
                let (k, n, b) = (i as int, size as int, bound as int);
                assert(k * n < b) by (nonlinear_arith)
                    requires
                        k < (b + n - 1) / n,
                        n >= 4,
                        k >= 0,
                ;
                assert((k + 1) * n == k * n + n) by (nonlinear_arith);
            }
            let end: usize = if size < bound - start {
                start + size
            } else {
                bound
            };
            let chunk = copy_chunk(&quotient.coefficients, start, end);
            proof {
                assert(padded(quotient@, end as int).subrange(start as int, end as int)
                    =~= full.subrange(start as int, end as int));
            }
            ret.push(chunk);
            proof {
                assert(coefficient_lists(ret@) =~= before.push(chunk@));
            }
            start = end;
            i += 1;
        }
        proof {
            assert(is_split(coefficient_lists(ret@), full, m.size));
        }
        ret
    }
}

/// A PLONK proof.
///
/// The API in the implementation mostly mirrors that of the proofs of the underlying polynomial
/// commitment scheme.
#[derive(Debug)]
pub struct Proof<H: HashBackend> {
    opening: Opening,
    backend: core::marker::PhantomData<H>,
}

impl<H: HashBackend> Proof<H> {
    /// The opened polynomial commitment.
    pub closed spec fn opening(self) -> Opening {
        self.opening
    }

    /// The setup is valid and has the right hash function, and all polynomials are opened at every
    /// opened position.
    #[verifier::type_invariant]
    pub closed spec fn wf(self) -> bool {
        &&& opening_setup(self.opening).valid()
        &&& opening_setup(self.opening).kind == H::spec_kind()
        &&& forall|z: int| #[trigger]
            opening_points(self.opening).contains_key(z) ==> opening_points(self.opening)[z].len()
                == opening_count(self.opening)
    }

    /// Returns the opened polynomial commitment.
    pub(crate) fn get_opening(&self) -> (ret: &Opening)
        ensures
            *ret == self.opening(),
            opening_setup(*ret).valid(),
            opening_setup(*ret).kind == H::spec_kind(),
            forall|z: int| #[trigger]
                opening_points(*ret).contains_key(z) ==> opening_points(*ret)[z].len()
                    == opening_count(*ret),
    {
        proof {
            use_type_invariant(self);
        }
        &self.opening
    }

    /// Returns the proven degree bound.
    pub fn degree_bound(&self) -> (ret: usize)
        ensures
            ret == opening_setup(self.opening()).degree_bound,
    {
        outside_degree_bound(&self.opening)
    }

    /// Returns the base-2 logarithm of the blowup factor used in the proof.
    pub fn blowup_log2(&self) -> (ret: usize)
        ensures
            ret == opening_setup(self.opening()).blowup_log2,
    {
        outside_blowup_log2(&self.opening)
    }

    /// Returns the size of the extended evaluation domain.
    pub fn extended_domain_size(&self) -> (ret: usize)
        ensures
            ret == opening_setup(self.opening()).extended_size(),
    {
        proof {
            use_type_invariant(self);
        }
        outside_extended_domain_size(&self.opening)
    }

    /// Returns the number of committed polynomials.
    ///
    /// These include the circuit selectors and sigma polynomials, the witness columns, the
    /// accumulator of the permutation argument, and the chunks of the grand quotient.
    pub fn num_polys(&self) -> (ret: usize)
        ensures
            ret == opening_count(self.opening()),
    {
        outside_num_polys(&self.opening)
    }
}

/// The setup of proofs for circuits of a given size.
pub open spec fn proof_setup(kind: HashKind, m: CircuitModel, options: ProvingOptions) -> Setup {
    Setup { kind, degree_bound: m.size, blowup_log2: options.blowup_log2 as int }
}

/// Commitments to the circuit can be made with the given options: there is something to commit to,
/// and the extended evaluation domain is not too large.
pub open spec fn committable_with(m: CircuitModel, options: ProvingOptions) -> bool {
    &&& m.columns > 0
    &&& options.blowup_log2 > 0
    &&& m.size * pow2(options.blowup_log2 as nat) <= max_domain_size()
    &&& m.size * pow2(options.blowup_log2 as nat) <= usize::MAX
}

/// Proofs can be made for the circuit with the given options: commitments can be made, and the
/// quotient can be handled.
pub open spec fn provable_with(m: CircuitModel, options: ProvingOptions) -> bool {
    committable_with(m, options) && m.quotient_fits()
}

/// What proving results in.
pub open spec fn is_prove_result<H: HashBackend>(
    ret: Result<Proof<H>, ProvingError>,
    m: CircuitModel,
    witness: Witness,
    setup: Setup,
) -> bool {
    let table = witness.table();
    if witness.spec_num_rows() != m.rows {
        ret matches Err(ProvingError::Rows { got, want }) && got == witness.spec_num_rows() && want
            == m.rows
    } else if witness.spec_degree_bound() != m.size {
        ret matches Err(ProvingError::DegreeBound { got, want }) && got
            == witness.spec_degree_bound() && want == m.size
    } else if table.len() != m.columns {
        ret matches Err(ProvingError::Columns { got, want }) && got == table.len() && want
            == m.columns
    } else {
        match ret {
            Ok(proof) => exists|polys: Polynomials| #[trigger]
                polys.fit(m, table, setup) && polys.has_quotient(m, setup) && is_opened(
                    polys,
                    m,
                    setup,
                    proof.opening(),
                ),
            Err(ProvingError::ZeroDenominator) => fails_by_zero(m, table, setup),
            Err(ProvingError::Wraparound) => fails_by_wraparound(m, table, setup),
            Err(ProvingError::ConstraintViolation) => exists|polys: Polynomials| #[trigger]
                polys.fit(m, table, setup) && polys.violated(m, setup),
            Err(ProvingError::CommittedPoint) => exists|polys: Polynomials| #[trigger]
                polys.fit(m, table, setup) && polys.has_quotient(m, setup)
                    && opens_committed_point(polys, m, setup),
            Err(_) => false,
        }
    }
}

/// The total of the constraints is the full constraint.
proof fn lemma_total(
    gate: int,
    fixpoint: int,
    recurrence: int,
    total: int,
    v: Seq<int>,
    alpha: int,
    p: int,
)
    requires
        p > 0,
        v.len() == 6,
        gate % p == v[0] % p,
        fixpoint % p == ((v[1] - 1) * v[5]) % p,
        recurrence % p == (v[2] * v[4] - v[1] * v[3]) % p,
        total % p == (gate + fixpoint * alpha + recurrence * (alpha * alpha)) % p,
    ensures
        total % p == full_constraint(v[0], v[1], v[2], v[3], v[4], v[5], alpha) % p,
{
    let f = (v[1] - 1) * v[5];
    let r = v[2] * v[4] - v[1] * v[3];
    lemma_cong_mul(fixpoint, f, alpha, alpha, p);
    lemma_cong_mul(recurrence, r, alpha * alpha, alpha * alpha, p);
    lemma_cong_add(gate, v[0], fixpoint * alpha, f * alpha, p);
    lemma_cong_add(
        gate + fixpoint * alpha,
        v[0] + f * alpha,
        recurrence * (alpha * alpha),
        r * (alpha * alpha),
        p,
    );
    assert(f * alpha == alpha * f) by (nonlinear_arith);
    assert(r * (alpha * alpha) == (alpha * alpha) * r) by (nonlinear_arith);
}

/// Derives a challenge for which the domain separator tag stands for the given text.
fn derive_challenge(committer: &Committer, text: &str) -> (ret: Scalar)
    ensures
        ret.value() == challenge(
            committer_setup(*committer).kind,
            merkle_roots(committer_setup(*committer), committed(*committer)),
            tag(text.spec_bytes()),
        ),
{
    outside_challenge(committer, hash_to_scalar(text.as_bytes()))
}

/// Returns the position of a rotation of `xi`.
pub(crate) fn rotate_point(
    size: usize,
    xi: Scalar,
    omega: Scalar,
    omega_inv: Scalar,
    rotation: isize,
) -> (ret: Scalar)
    requires
        omega.value() == domain_root(size as int),
        is_inverse(omega.value(), omega_inv.value(), Scalar::modulus()),
    ensures
        ret.value() == rotated_point(size as int, xi.value(), rotation),
{
    proof {
        Scalar::lemma_modulus();
        lemma_inverse_unique(omega.value(), omega_inv.value(), Scalar::modulus());
    }
    let base = if rotation < 0 {
        omega_inv
    } else {
        omega
    };
    xi.times(base.pow(magnitude(rotation)))
}

/// Calculates the size of the extended evaluation domain.
pub(crate) fn extended_size(degree_bound: usize, blowup_log2: usize) -> (ret: usize)
    requires
        degree_bound * pow2(blowup_log2 as nat) <= usize::MAX,
    ensures
        ret == degree_bound * pow2(blowup_log2 as nat),
{
    let mut ret: usize = degree_bound;
    let mut i: usize = 0;
    proof {
        lemma2_to64();
        assert(degree_bound * 1 == degree_bound);
    }
    while i < blowup_log2
        invariant
            i <= blowup_log2,
            ret == degree_bound * pow2(i as nat),
            degree_bound * pow2(blowup_log2 as nat) <= usize::MAX,
        decreases blowup_log2 - i,
    {
        proof {
            lemma_pow2_monotone((i + 1) as nat, blowup_log2 as nat);
            lemma_pow2_unfold((i + 1) as nat);
            let (d, a, b) = (
                degree_bound as int,
                pow2((i + 1) as nat) as int,
                pow2(blowup_log2 as nat) as int,
            );
            let c = pow2(i as nat) as int;
            assert(d * a <= d * b && d * a == (d * c) * 2) by (nonlinear_arith)
                requires
                    0 <= d,
                    a <= b,
                    a == 2 * c,
            ;
        }
        ret = ret * 2;
        i += 1;
    }
    ret
}

/// Checks that the extended evaluation domain is not too large.
fn extension_fits(degree_bound: usize, blowup_log2: usize) -> (ret: bool)
    requires
        degree_bound >= 1,
        degree_bound <= max_domain_size(),
    ensures
        ret == (degree_bound * pow2(blowup_log2 as nat) <= max_domain_size() && degree_bound * pow2(
            blowup_log2 as nat,
        ) <= usize::MAX),
{
    let limit: u64 = 0x4000_0000_0000_0000;
    let mut size: usize = degree_bound;
    let mut i: usize = 0;
    proof {
        lemma2_to64();
        assert(degree_bound * 1 == degree_bound);
    }
    while i < blowup_log2
        invariant
            i <= blowup_log2,
            limit == 0x4000_0000_0000_0000,
            size == degree_bound * pow2(i as nat),
            size >= 1,
            size <= max_domain_size(),
        decreases blowup_log2 - i,
    {
        proof {
            lemma_pow2_monotone((i + 1) as nat, blowup_log2 as nat);
            lemma_pow2_unfold((i + 1) as nat);
            let (d, a, b) = (
                degree_bound as int,
                pow2((i + 1) as nat) as int,
                pow2(blowup_log2 as nat) as int,
            );
            let c = pow2(i as nat) as int;
            assert(d * a <= d * b && d * a == (d * c) * 2) by (nonlinear_arith)
                requires
                    0 <= d,
                    a <= b,
                    a == 2 * c,
            ;
        }
        if size > usize::MAX / 2 || (size * 2) as u64 > limit {
            return false;
        }
        size = size * 2;
        i += 1;
    }
    true
}

impl Circuit {
    /// Returns the selectors and the permutation polynomials.
    pub(crate) fn circuit_polynomials(&self) -> (ret: Vec<Polynomial>)
        ensures
            coefficient_lists(ret@) == self.model().selectors + self.model().sigma,
    {
        let mut ret: Vec<Polynomial> = Vec::new();
        append_copies(&mut ret, &self.selectors);
        proof {
            assert(coefficient_lists(ret@) =~= self.model().selectors);
        }
        append_copies(&mut ret, &self.sigma);
        ret
    }

    /// Returns the positions at which the polynomials are opened.
    fn opened_points(&self, xi: Scalar, omega: Scalar, omega_inv: Scalar) -> (ret: Vec<Scalar>)
        requires
            omega.value() == domain_root(self.model().size),
            is_inverse(omega.value(), omega_inv.value(), Scalar::modulus()),
        ensures
            ret@.len() > 0,
            forall|z: int| #[trigger]
                residues(ret@).contains(z) <==> opened_at(self.model(), xi.value(), z),
    {
        let ghost m = self.model();
        let ghost x = xi.value();
        let rotations = collect_rotations(&self.gates);
        let set = rotation_set(&rotations);
        let mut ret: Vec<Scalar> = Vec::new();
        let mut i: usize = 0;
        while i < set.len()
            invariant
                i <= set.len(),
                m == self.model(),
                x == xi.value(),
                omega.value() == domain_root(m.size),
                m.size == self.degree_bound,
                is_inverse(omega.value(), omega_inv.value(), Scalar::modulus()),
                ret@.len() == i,
                forall|k: int|
                    0 <= k < i ==> (#[trigger] ret@[k]).value() == rotated_point(
                        m.size,
                        x,
                        set@[k],
                    ),
            decreases set.len() - i,
        {
            ret.push(rotate_point(self.degree_bound, xi, omega, omega_inv, set[i]));
            i += 1;
        }
        let ghost count = set@.len() as int;
        let mut j: usize = 0;
        while j < self.public_rows.len()
            invariant
                j <= self.public_rows.len(),
                m == self.model(),
                x == xi.value(),
                omega.value() == domain_root(m.size),
                count == set@.len(),
                ret@.len() == count + j,
                forall|k: int|
                    0 <= k < count ==> (#[trigger] ret@[k]).value() == rotated_point(
                        m.size,
                        x,
                        set@[k],
                    ),
                forall|k: int|
                    0 <= k < j ==> (#[trigger] ret@[count + k]).value() == row_point(
                        m.size,
                        m.public_rows[k],
                    ),
            decreases self.public_rows.len() - j,
        {
            let ghost before = ret@;
            ret.push(omega.pow(self.public_rows[j]));
            proof {
                assert forall|k: int| 0 <= k < j + 1 implies (#[trigger] ret@[count + k]).value()
                    == row_point(m.size, m.public_rows[k]) by {
                    if k < j {
                        assert(ret@[count + k] == before[count + k]);
                    }
                }
            }
            j += 1;
        }
        proof {
            let list = residues(ret@);
            assert forall|z: int| #[trigger] list.contains(z) <==> opened_at(m, x, z) by {
                if list.contains(z) {
                    let k = choose|k: int| 0 <= k < list.len() && list[k] == z;
                    if k < count {
                        assert(ret@[k].value() == z);
                        assert(set@.to_set().contains(set@[k]));
                        assert(is_rotated_point(m, x, set@[k], z));
                    } else {
                        assert(ret@[count + (k - count)].value() == z);
                        assert(is_row_point(m, k - count, z));
                    }
                }
                if exists|r: isize| #[trigger] is_rotated_point(m, x, r, z) {
                    let r = choose|r: isize| #[trigger] is_rotated_point(m, x, r, z);
                    assert(set@.to_set().contains(r));
                    assert(set@.contains(r));
                    let k = choose|k: int| 0 <= k < set@.len() && set@[k] == r;
                    assert(ret@[k].value() == z);
                    assert(list[k] == z);
                }
                if exists|i: int| #[trigger] is_row_point(m, i, z) {
                    let i = choose|i: int| #[trigger] is_row_point(m, i, z);
                    assert(ret@[count + i].value() == z);
                    assert(list[count + i] == z);
                }
            }
            assert(opened_set(m.gates).contains(0isize));
            assert(set@.to_set().contains(0isize));
            assert(set@.contains(0isize));
        }
        ret
    }

    /// Combines all gate constraints with the constraints of the permutation argument, and divides
    /// the result by `X^n - 1`.
    fn build_quotient(
        &self,
        gate: &Polynomial,
        fixpoint: &Polynomial,
        recurrence: &Polynomial,
        alpha: Scalar,
    ) -> (ret: Option<Polynomial>)
        requires
            gate@.len() <= product_bound(self.model().size, max_gate_degree(self.model().gates)),
            fixpoint@.len() <= product_bound(self.model().size, self.model().columns),
            recurrence@.len() <= product_bound(self.model().size, self.model().columns),
        ensures
            match ret {
                Some(quotient) => {
                    &&& quotient@.len() <= quotient_bound(
                        self.model().size,
                        self.model().columns,
                        self.model().gates,
                    )
                    &&& forall|x: int|
                        (#[trigger] poly_eval(quotient@, x) * (pow(x, self.model().size as nat)
                            - 1)) % Scalar::modulus() == (poly_eval(gate@, x) + poly_eval(
                            fixpoint@,
                            x,
                        ) * alpha.value() + poly_eval(recurrence@, x) * (alpha.value()
                            * alpha.value())) % Scalar::modulus()
                },
                None => exists|i: nat|
                    i < self.model().size && ({
                        let x = #[trigger] pow(domain_root(self.model().size), i);
                        (poly_eval(gate@, x) + poly_eval(fixpoint@, x) * alpha.value() + poly_eval(
                            recurrence@,
                            x,
                        ) * (alpha.value() * alpha.value())) % Scalar::modulus() != 0
                    }),
            },
    {
        let ghost m = self.model();
        let ghost p = Scalar::modulus();
        let ghost a = alpha.value();
        proof {
            use_type_invariant(self);
            Scalar::lemma_modulus();
        }
        let square = alpha.times(alpha);
        let first = fixpoint.scaled(alpha);
        let second = recurrence.scaled(square);
        let sum = gate.plus(&first);
        let total = sum.plus(&second);
        proof {
            assert forall|x: int| #[trigger] poly_eval(total@, x) % p == (poly_eval(gate@, x)
                + poly_eval(fixpoint@, x) * a + poly_eval(recurrence@, x) * (a * a)) % p by {
                let (g, f, r) = (
                    poly_eval(gate@, x),
                    poly_eval(fixpoint@, x),
                    poly_eval(recurrence@, x),
                );
                lemma_mod_mul(r, a * a, p);
                assert(poly_eval(second@, x) % p == (r * (a * a)) % p);
                lemma_cong_add(g, g, poly_eval(first@, x), f * a, p);
                lemma_cong_add(
                    poly_eval(sum@, x),
                    g + f * a,
                    poly_eval(second@, x),
                    r * (a * a),
                    p,
                );
            }
            let (n, d, c) = (m.size, max_gate_degree(m.gates), m.columns);
            let e = if d < c {
                c
            } else {
                d
            };
            assert((n - 1) * (1 + d) + 1 <= (n - 1) * e + n && (n - 1) * (1 + c) + 1 <= (n - 1) * e
                + n) by (nonlinear_arith)
                requires
                    n >= 4,
                    d <= e,
                    c <= e,
            ;
            assert(0 <= (n - 1) * e) by (nonlinear_arith)
                requires
                    n >= 4,
                    e >= 0,
            ;
        }
        let ret = total.divide_by_zero(self.degree_bound);
        proof {
            if ret is None {
                let i = choose|i: nat|
                    i < m.size && #[trigger] poly_eval(total@, pow(domain_root(m.size), i)) % p
                        != 0;
                let x = pow(domain_root(m.size), i);
                assert(poly_eval(total@, x) % p != 0);
            }
        }
        ret
    }
}

/// `after` is `before` with drawn values in the blinding rows.
pub open spec fn is_blinded(after: Witness, before: Witness) -> bool {
    &&& before.is_rectangular()
    &&& after.is_rectangular()
    &&& after.same_shape(before)
    &&& forall|c: Cell| #[trigger]
        before.has(c) && !before.is_blinding(c) ==> after.at(c) == before.at(c)
    &&& forall|c: Cell| #[trigger]
        before.has(c) && before.is_blinding(c) ==> Scalar::drawn(after.at(c))
}

/// What proving results in, after the blinding rows are filled with random values.
pub open spec fn is_blinded_prove_result<H: HashBackend>(
    ret: Result<Proof<H>, ProvingError>,
    m: CircuitModel,
    witness: Witness,
    setup: Setup,
) -> bool {
    exists|blinded: Witness| #[trigger]
        is_blinded(blinded, witness) && is_prove_result(ret, m, blinded, setup)
}

/// Batches of polynomials that are interpolated over the circuit's rows can be committed.
pub proof fn lemma_circuit_committable(m: CircuitModel, setup: Setup)
    requires
        m.wf(),
        m.columns > 0,
        setup.degree_bound == m.size,
    ensures
        committable(setup, m.selectors + m.sigma),
{
    let batch = m.selectors + m.sigma;
    assert forall|i: int| 0 <= i < batch.len() implies (#[trigger] batch[i]).len()
        <= setup.degree_bound by {
        if i < m.selectors.len() {
            assert(interpolates(m.selectors[i], selector_values(m.active[i], m.size)));
        } else {
            let j = i - m.selectors.len();
            assert(interpolates(m.sigma[j], sigma_values(m.targets[j], m.size)));
        }
    }
}

/// There is at least one chunk of the quotient.
proof fn lemma_chunks_positive(m: CircuitModel)
    requires
        m.sizes_wf(),
        m.columns > 0,
    ensures
        quotient_chunks(m.size, m.columns, m.gates) > 0,
{
    lemma_max_degree_nonnegative(m.gates);
    let d = max_gate_degree(m.gates);
    let e = if d < m.columns {
        m.columns
    } else {
        d
    };
    let (n, b) = (m.size, (m.size - 1) * e);
    assert(b >= 1) by (nonlinear_arith)
        requires
            b == (n - 1) * e,
            n >= 4,
            e >= 1,
    ;
    assert((b + n - 1) / n > 0) by (nonlinear_arith)
        requires
            b >= 1,
            n >= 4,
    ;
}

impl Circuit {
    /// Indicates whether proofs can be made with the given options: there must be columns, and
    /// neither the extended evaluation domain nor the quotient may be too large.
    pub fn is_provable_with(&self, options: ProvingOptions) -> (ret: bool)
        ensures
            ret == provable_with(self.model(), options),
    {
        let ghost m = self.model();
        proof {
            use_type_invariant(self);
            assert forall|i: int| 0 <= i < self.gates@.len() implies canonical(
                (#[trigger] self.gates@[i]).constraint@,
            ) by {
                assert(m.placement_wf(m.gates[i]));
            }
        }
        self.num_columns > 0 && options.blowup_log2 > 0 && extension_fits(
            self.degree_bound,
            options.blowup_log2,
        ) && check_counts(
            self.degree_bound,
            self.num_columns,
            &self.gates,
            self.active_rows.len(),
        ) && check_domain(self.degree_bound, self.num_columns, &self.gates)
    }

    /// Proves correctness of a witness whose blinding rows are already filled in, or returns an
    /// error in case of a constraint violation.
    ///
    /// See [`Self::prove`].
    pub fn prove_blinded<H: HashBackend>(&self, witness: &Witness, options: ProvingOptions) -> (ret:
        Result<Proof<H>, ProvingError>)
        requires
            provable_with(self.model(), options),
        ensures
            is_prove_result(
                ret,
                self.model(),
                *witness,
                proof_setup(H::spec_kind(), self.model(), options),
            ),
    {
        let ghost m = self.model();
        let ghost p = Scalar::modulus();
        let ghost table = witness.table();
        let ghost setup = proof_setup(H::spec_kind(), m, options);
        proof {
            use_type_invariant(self);
            Scalar::lemma_modulus();
            lemma_product_bound(m, m.columns);
            lemma_circuit_committable(m, setup);
            lemma_chunks_positive(m);
        }
        if witness.num_rows() != self.num_rows {
            return Err(ProvingError::Rows { got: witness.num_rows(), want: self.num_rows });
        }
        if witness.degree_bound() != self.degree_bound {
            return Err(
                ProvingError::DegreeBound {
                    got: witness.degree_bound(),
                    want: self.degree_bound,
                },
            );
        }
        if witness.num_columns() != self.num_columns {
            return Err(
                ProvingError::Columns { got: witness.num_columns(), want: self.num_columns },
            );
        }
        let circuit = self.circuit_polynomials();
        let mut committer = outside_new(
            H::kind(),
            self.degree_bound,
            options.blowup_log2,
            &circuit,
        );
        let columns = witness.encode();
        let ghost lists = coefficient_lists(columns@);
        proof {
            assert forall|j: int| 0 <= j < lists.len() implies (#[trigger] lists[j]).len()
                <= m.size by {
                assert(interpolates(lists[j], table[j]));
            }
        }
        outside_add_batch(&mut committer, &columns);
        proof {
            assert(committed(committer) =~= first_batches(m, lists));
        }
        let omega = domain_element(self.degree_bound);
        let omega_inv = invert_root(omega, self.degree_bound);
        let delta = derive_challenge(&committer, "starkom/plonk/challenge/delta");
        let beta = derive_challenge(&committer, "starkom/plonk/challenge/beta");
        let gamma = derive_challenge(&committer, "starkom/plonk/challenge/gamma");
        proof {
            assert(delta.value() == early_challenge(m, setup, lists, delta_text()));
            assert(beta.value() == early_challenge(m, setup, lists, beta_text()));
            assert(gamma.value() == early_challenge(m, setup, lists, gamma_text()));
        }
        let gate = self.build_gate_constraint(omega, omega_inv, &columns, delta);
        let (accumulator, fixpoint, recurrence) = match self.build_permutation_argument(
            witness,
            &columns,
            beta,
            gamma,
        ) {
            Ok(polynomials) => polynomials,
            Err(error) => {
                proof {
                    assert(columns_interpolate(lists, table));
                }
                return Err(error);
            },
        };
        let ghost acc = accumulator@;
        let ghost lagrange = choose|lagrange: Seq<int>| #[trigger]
            is_lagrange0(lagrange, m.size) && is_fixpoint_constraint(fixpoint@, acc, lagrange);
        let mut batch: Vec<Polynomial> = Vec::new();
        batch.push(accumulator);
        proof {
            assert(coefficient_lists(batch@) =~= seq![acc]);
            let values = choose|values: Seq<int>| #[trigger]
                is_accumulation(values, m, table, beta.value(), gamma.value()) && values[m.size]
                    == 1 && interpolates(acc, values.drop_last());
            assert(acc.len() <= m.size);
        }
        outside_add_batch(&mut committer, &batch);
        let alpha = derive_challenge(&committer, "starkom/plonk/challenge/alpha");
        proof {
            assert(committed(committer) =~= first_batches(m, lists).push(seq![acc]));
        }
        let ghost early = Polynomials { columns: lists, accumulator: acc, lagrange, chunks: seq![] };
        let ghost ch = early.challenges(m, setup);
        proof {
            lemma_challenges(early, m, setup);
            assert(early.fit(m, table, setup));
            assert forall|x: int, total: int|
                total % p == (poly_eval(gate@, x) + poly_eval(fixpoint@, x) * alpha.value()
                    + #[trigger] poly_eval(recurrence@, x) * (alpha.value() * alpha.value()))
                    % p implies #[trigger] (total % p) == early.constraint_at(m, ch, x) % p by {
                lemma_total(
                    poly_eval(gate@, x),
                    poly_eval(fixpoint@, x),
                    poly_eval(recurrence@, x),
                    total,
                    seq![
                        gate_sum(
                            m.gates,
                            evaluations(m.selectors, x),
                            rotated_valuation(lists, omega.value(), x),
                            ch.delta,
                        ),
                        poly_eval(acc, x),
                        poly_eval(acc, omega.value() * x),
                        identity_product(evaluations(lists, x), x, ch.beta, ch.gamma),
                        sigma_product(
                            evaluations(lists, x),
                            evaluations(m.sigma, x),
                            ch.beta,
                            ch.gamma,
                        ),
                        poly_eval(lagrange, x),
                    ],
                    alpha.value(),
                    p,
                );
            }
        }
        let quotient = match self.build_quotient(&gate, &fixpoint, &recurrence, alpha) {
            Some(quotient) => quotient,
            None => {
                proof {
                    let i = choose|i: nat|
                        i < m.size && ({
                            let x = #[trigger] pow(domain_root(m.size), i);
                            (poly_eval(gate@, x) + poly_eval(fixpoint@, x) * alpha.value()
                                + poly_eval(recurrence@, x) * (alpha.value() * alpha.value())) % p
                                != 0
                        });
                    let x = pow(domain_root(m.size), i);
                    let total = poly_eval(gate@, x) + poly_eval(fixpoint@, x) * alpha.value()
                        + poly_eval(recurrence@, x) * (alpha.value() * alpha.value());
                    assert(total % p == early.constraint_at(m, ch, x) % p);
                    assert(early.violated(m, setup));
                    assert(early.fit(m, table, setup));
                }
                return Err(ProvingError::ConstraintViolation);
            },
        };
        let chunks = self.split_quotient(&quotient);
        let ghost polys = Polynomials {
            columns: lists,
            accumulator: acc,
            lagrange,
            chunks: coefficient_lists(chunks@),
        };
        proof {
            lemma_challenges(polys, m, setup);
            assert forall|x: int|
                (#[trigger] poly_eval(quotient@, x) * (pow(x, m.size as nat) - 1)) % p
                    == polys.constraint_at(m, polys.challenges(m, setup), x) % p by {
                let total = poly_eval(quotient@, x) * (pow(x, m.size as nat) - 1);
                assert(total % p == (poly_eval(gate@, x) + poly_eval(fixpoint@, x) * alpha.value()
                    + poly_eval(recurrence@, x) * (alpha.value() * alpha.value())) % p);
                assert(total % p == early.constraint_at(m, ch, x) % p);
            }
            assert(polys.divides(m, setup, quotient@));
            assert(polys.has_quotient(m, setup));
            assert(polys.fit(m, table, setup));
        }
        outside_add_batch(&mut committer, &chunks);
        proof {
            assert(committed(committer) =~= polys.batches(m));
        }
        let xi = derive_challenge(&committer, "starkom/plonk/challenge/xi");
        let points = self.opened_points(xi, omega, omega_inv);
        let extended: usize = extended_size(self.degree_bound, options.blowup_log2);
        let shift = multiplicative_generator().pow(extended);
        let mut i: usize = 0;
        while i < points.len()
            invariant
                i <= points.len(),
                p == Scalar::modulus(),
                extended == setup.extended_size(),
                shift.value() == pow(5, extended as nat) % p,
                forall|z: int| #[trigger]
                    residues(points@).contains(z) <==> opened_at(m, xi.value(), z),
                polys.fit(m, table, setup),
                polys.has_quotient(m, setup),
                xi.value() == polys.challenges(m, setup).xi,
                m == self.model(),
                table == witness.table(),
                witness.spec_num_rows() == m.rows,
                witness.spec_degree_bound() == m.size,
                table.len() == m.columns,
                setup == proof_setup(H::spec_kind(), m, options),
                forall|k: int|
                    0 <= k < i ==> !setup.is_committed_point((#[trigger] points@[k]).value()),
            decreases points.len() - i,
        {
            if equal(points[i].pow(extended), shift) {
                proof {
                    let z = points@[i as int].value();
                    assert(residues(points@)[i as int] == z);
                    assert(residues(points@).contains(z));
                    assert(setup.is_committed_point(z));
                    assert(opens_committed_point(polys, m, setup));
                }
                return Err(ProvingError::CommittedPoint);
            }
            i += 1;
        }
        let opening = outside_open(committer, &points);
        proof {
            assert(is_opened(polys, m, setup, opening));
        }
        Ok(Proof { opening, backend: core::marker::PhantomData })
    }

    /// Proves correctness of the given witness, or returns an error in case of a constraint
    /// violation.
    ///
    /// The blinding rows of the witness are filled with random values first.
    pub fn prove<H: HashBackend>(&self, witness: Witness, options: ProvingOptions) -> (ret: Result<
        Proof<H>,
        ProvingError,
    >)
        requires
            provable_with(self.model(), options),
        ensures
            self.model().wf(),
            is_blinded_prove_result(
                ret,
                self.model(),
                witness,
                proof_setup(H::spec_kind(), self.model(), options),
            ),
    {
        let mut blinded = witness;
        blinded.blind();
        proof {
            use_type_invariant(self);
            let values = choose|values: Seq<Seq<int>>| #[trigger]
                covers_blinding(witness, values) && all_drawn(values) && is_filled(
                    blinded,
                    witness,
                    values,
                );
            assert forall|c: Cell| #[trigger]
                witness.has(c) && witness.is_blinding(c) implies Scalar::drawn(blinded.at(c)) by {
                let row = c.row - witness.spec_num_rows();
                assert(values[c.column as int].len() == witness.spec_num_blinding_rows());
                assert(blinded.at(c) == values[c.column as int][row]);
            }
            assert(is_blinded(blinded, witness));
        }
        self.prove_blinded(&blinded, options)
    }
}

/// Inverts the root of unity of an evaluation domain.
pub(crate) fn invert_root(omega: Scalar, size: usize) -> (ret: Scalar)
    requires
        size > 0,
        omega.value() == domain_root(size as int),
        pow(omega.value(), size as nat) % Scalar::modulus() == 1,
    ensures
        is_inverse(omega.value(), ret.value(), Scalar::modulus()),
{
    proof {
        Scalar::lemma_modulus();
        if omega.value() == 0 {
            vstd::arithmetic::power::lemma0_pow(size as nat);
            lemma_small(0, Scalar::modulus());
        }
    }
    match omega.invert() {
        Some(inverse) => inverse,
        None => omega,
    }
}

/// Two openings agree in all that proofs and their verification depend on.
pub open spec fn same_opening(a: Opening, b: Opening) -> bool {
    &&& opening_setup(a) == opening_setup(b)
    &&& opening_roots(a) == opening_roots(b)
    &&& opening_count(a) == opening_count(b)
    &&& opening_points(a) == opening_points(b)
    &&& opening_accepted(a) == opening_accepted(b)
    &&& opening_fault(a) == opening_fault(b)
}

impl<H: HashBackend> Clone for Proof<H> {
    fn clone(&self) -> (ret: Self)
        ensures
            same_opening(ret.opening(), self.opening()),
    {
        proof {
            use_type_invariant(self);
        }
        Proof { opening: outside_clone(&self.opening), backend: core::marker::PhantomData }
    }
}

} // verus!
