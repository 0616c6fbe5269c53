//! The part of the prover that deals with gates.
use crate::argument::{gate_sum, rotated_valuation};
use crate::arith::{is_inverse, lemma_cong_add, lemma_cong_mul, lemma_mod_mul, lemma_small};
use crate::assignment::Assignment;
use crate::builder::lemma_shifted_have;
use crate::compose::{column_valuation, composable, lemma_terms_value_cong, poly_valuation, rotated};
use crate::expr::{canonical, mono_degree, terms_degree};
use crate::field::{one, zero, Field, Scalar};
use crate::model::{max_gate_degree, CircuitModel, Placement};
use crate::pcs::evaluations;
use crate::plonk::{lemma_max_degree_member, lemma_max_degree_nonnegative, Circuit};
use crate::poly::{coefficient_lists, max_domain_size, poly_eval, Polynomial};
use crate::terms::{shift_mono, shift_terms, terms_have, terms_value, Mono, Terms};
use crate::variable::{shift_variable, Variable};
use vstd::arithmetic::power::{lemma_pow0, lemma_pow1, lemma_pow_adds, pow};
use vstd::prelude::*;

verus! {

/// Shifts keep degrees.
proof fn lemma_shift_mono_degree(m: Mono, offset: int)
    ensures
        mono_degree(shift_mono(m, offset)) == mono_degree(m),
    decreases m.len(),
{
    if m.len() > 0 {
        assert(shift_mono(m, offset).drop_last() =~= shift_mono(m.drop_last(), offset));
        lemma_shift_mono_degree(m.drop_last(), offset);
    }
}

/// Shifts keep degrees.
proof fn lemma_shift_degree(t: Terms, offset: int)
    ensures
        terms_degree(shift_terms(t, offset)) == terms_degree(t),
    decreases t.len(),
{
    if t.len() > 0 {
        assert(shift_terms(t, offset).drop_last() =~= shift_terms(t.drop_last(), offset));
        lemma_shift_degree(t.drop_last(), offset);
        lemma_shift_mono_degree(t.last().0, offset);
    }
}

/// Placed gates are canonical, have columns of the circuit as variables, and keep their degrees.
pub proof fn lemma_placed_gate(m: CircuitModel, g: Placement)
    requires
        m.placement_wf(g),
    ensures
        canonical(shift_terms(g.terms, g.column)),
        terms_degree(shift_terms(g.terms, g.column)) == terms_degree(g.terms),
        forall|w: Variable| #[trigger]
            terms_have(shift_terms(g.terms, g.column), w) ==> w.column_index < m.columns
                && exists|v: Variable| #[trigger]
                terms_have(g.terms, v) && w == shift_variable(v, g.column),
{
    let s = shift_terms(g.terms, g.column);
    assert forall|i: int, j: int| 0 <= i < s.len() && 0 <= j < s[i].0.len() implies (
    #[trigger] s[i].0[j]).1 >= 0 by {
        assert(g.terms[i].0[j].1 >= 0);
    }
    lemma_shift_degree(g.terms, g.column);
    assert forall|w: Variable| #[trigger] terms_have(s, w) implies w.column_index < m.columns
        && exists|v: Variable| #[trigger]
        terms_have(g.terms, v) && w == shift_variable(v, g.column) by {
        lemma_shifted_have(g.terms, g.column, w);
        let v = choose|v: Variable| #[trigger]
            terms_have(g.terms, v) && w == shift_variable(v, g.column);
        assert(g.column + v.column_index < m.columns);
    }
}

/// Columns can be used to prove statements about a circuit.
pub open spec fn columns_fit(m: CircuitModel, columns: Seq<Seq<int>>) -> bool {
    &&& columns.len() == m.columns
    &&& forall|j: int| 0 <= j < columns.len() ==> (#[trigger] columns[j]).len() <= m.size
}

/// The bound on the number of coefficients of a product of `factors + 1` polynomials with at most
/// `size` coefficients each.
pub open spec fn product_bound(size: int, factors: int) -> int {
    (size - 1) * (1 + factors) + 1
}

/// Products that occur in proofs are small enough.
pub proof fn lemma_product_bound(m: CircuitModel, factors: int)
    requires
        m.sizes_wf(),
        m.quotient_fits(),
        0 <= factors <= max_gate_degree(m.gates) || 0 <= factors <= m.columns,
    ensures
        0 < product_bound(m.size, factors),
        product_bound(m.size, factors) + 2 * m.size <= max_domain_size(),
        factors * (m.size - 1) + 1 <= max_domain_size(),
        factors * (m.size - 1) + 1 + m.size <= max_domain_size(),
        product_bound(m.size, factors) == factors * (m.size - 1) + m.size,
{
    lemma_max_degree_nonnegative(m.gates);
    let d = max_gate_degree(m.gates);
    let (n, c) = (m.size, m.columns);
    assert((n - 1) * (1 + factors) + 1 == factors * (n - 1) + n) by (nonlinear_arith);
    assert(0 <= factors * (n - 1) && factors * (n - 1) + 3 * n <= n * (d + c + 4))
        by (nonlinear_arith)
        requires
            n >= 4,
            d >= 0,
            c >= 0,
            0 <= factors <= d + c,
    ;
}

impl Circuit {
    /// Associates the rotated columns to all variables of placed gates.
    fn get_variable_substitution(
        &self,
        omega: Scalar,
        omega_inv: Scalar,
        columns: &Vec<Polynomial>,
    ) -> (ret: Assignment<Polynomial>)
        requires
            is_inverse(omega.value(), omega_inv.value(), Scalar::modulus()),
            columns_fit(self.model(), coefficient_lists(columns@)),
        ensures
            forall|g: int, v: Variable|
                0 <= g < self.model().gates.len() && #[trigger] terms_have(
                    shift_terms(
                        (#[trigger] self.model().gates[g]).terms,
                        self.model().gates[g].column,
                    ),
                    v,
                ) ==> rotated(ret@, v, columns@, omega.value(), self.model().size),
    {
        let ghost m = self.model();
        proof {
            use_type_invariant(self);
        }
        let mut substitution: Assignment<Polynomial> = Assignment::new();
        let mut g: usize = 0;
        while g < self.gates.len()
            invariant
                g <= self.gates.len(),
                m == self.model(),
                self.wf(),
                is_inverse(omega.value(), omega_inv.value(), Scalar::modulus()),
                columns_fit(m, coefficient_lists(columns@)),
                forall|v: Variable|
                    #![trigger substitution@.contains_key(v)]
                    substitution@.contains_key(v) ==> rotated(
                        substitution@,
                        v,
                        columns@,
                        omega.value(),
                        m.size,
                    ),
                forall|k: int, v: Variable|
                    0 <= k < g && #[trigger] terms_have(
                        shift_terms((#[trigger] m.gates[k]).terms, m.gates[k].column),
                        v,
                    ) ==> substitution@.contains_key(v),
            decreases self.gates.len() - g,
        {
            let ghost placed = m.gates[g as int];
            let ghost t = shift_terms(placed.terms, placed.column);
            let ghost before = substitution@;
            let variables = self.gates[g].remapped.get_free_variables();
            proof {
                assert(self.gates@[g as int].remapped@ == t);
                assert(m.placement_wf(placed));
                lemma_placed_gate(m, placed);
            }
            let mut i: usize = 0;
            while i < variables.len()
                invariant
                    i <= variables.len(),
                    is_inverse(omega.value(), omega_inv.value(), Scalar::modulus()),
                    columns_fit(m, coefficient_lists(columns@)),
                    forall|v: Variable| #[trigger] variables@.contains(v) <==> terms_have(t, v),
                    forall|v: Variable| #[trigger]
                        terms_have(t, v) ==> v.column_index < m.columns,
                    forall|v: Variable|
                        #![trigger substitution@.contains_key(v)]
                        substitution@.contains_key(v) ==> rotated(
                            substitution@,
                            v,
                            columns@,
                            omega.value(),
                            m.size,
                        ),
                    forall|v: Variable| #[trigger]
                        before.contains_key(v) ==> substitution@.contains_key(v),
                    forall|k: int|
                        0 <= k < i ==> substitution@.contains_key(#[trigger] variables@[k]),
                decreases variables.len() - i,
            {
                let variable = variables[i];
                proof {
                    assert(variables@.contains(variable));
                    assert(terms_have(t, variable));
                }
                let present = match substitution.get(variable) {
                    Some(_) => true,
                    None => false,
                };
                if !present {
                    let ghost sofar = substitution@;
                    let column = variable.rotate_column(
                        &columns[variable.column_index()],
                        omega,
                        omega_inv,
                    );
                    proof {
                        assert(coefficient_lists(columns@)[variable.column_index as int].len()
                            <= m.size);
                    }
                    substitution.insert(variable, column);
                    proof {
                        assert forall|v: Variable| #![trigger substitution@.contains_key(v)]
                            substitution@.contains_key(v) implies rotated(
                            substitution@,
                            v,
                            columns@,
                            omega.value(),
                            m.size,
                        ) by {
                            if v != variable {
                                assert(sofar.contains_key(v));
                                assert(rotated(sofar, v, columns@, omega.value(), m.size));
                            }
                        }
                    }
                }
                i += 1;
            }
            proof {
                assert forall|k: int, v: Variable|
                    0 <= k < g + 1 && #[trigger] terms_have(
                        shift_terms((#[trigger] m.gates[k]).terms, m.gates[k].column),
                        v,
                    ) implies substitution@.contains_key(v) by {
                    if k < g {
                        assert(before.contains_key(v));
                    } else {
                        assert(variables@.contains(v));
                        let x = choose|x: int| 0 <= x < variables@.len() && variables@[x] == v;
                        assert(substitution@.contains_key(variables@[x]));
                    }
                }
            }
            g += 1;
        }
        substitution
    }

    /// Builds the combined gate constraint: the constraints of all gates, each composed with the
    /// columns and multiplied with its selector and a power of `delta`.
    pub(crate) fn build_gate_constraint(
        &self,
        omega: Scalar,
        omega_inv: Scalar,
        columns: &Vec<Polynomial>,
        delta: Scalar,
    ) -> (ret: Polynomial)
        requires
            is_inverse(omega.value(), omega_inv.value(), Scalar::modulus()),
            columns_fit(self.model(), coefficient_lists(columns@)),
            self.model().quotient_fits(),
        ensures
            ret@.len() <= product_bound(self.model().size, max_gate_degree(self.model().gates)),
            forall|x: int| #[trigger]
                poly_eval(ret@, x) % Scalar::modulus() == gate_sum(
                    self.model().gates,
                    evaluations(self.model().selectors, x),
                    rotated_valuation(coefficient_lists(columns@), omega.value(), x),
                    delta.value(),
                ) % Scalar::modulus(),
    {
        let ghost m = self.model();
        let ghost p = Scalar::modulus();
        let ghost d = delta.value();
        let ghost lists = coefficient_lists(columns@);
        let ghost bound = product_bound(m.size, max_gate_degree(m.gates));
        proof {
            use_type_invariant(self);
            Scalar::lemma_modulus();
            lemma_max_degree_nonnegative(m.gates);
            lemma_product_bound(m, max_gate_degree(m.gates));
            lemma_pow0(d);
            lemma_small(1, p);
            lemma_small(0, p);
        }
        let substitution = self.get_variable_substitution(omega, omega_inv, columns);
        let mut result = Polynomial::zero();
        let mut power = one::<Scalar>();
        let mut g: usize = 0;
        proof {
            assert(m.gates.subrange(0, 0) =~= seq![]);
        }
        while g < self.gates.len()
            invariant
                g <= self.gates.len(),
                m == self.model(),
                self.wf(),
                m.quotient_fits(),
                p == Scalar::modulus(),
                p > 1,
                d == delta.value(),
                lists == coefficient_lists(columns@),
                columns_fit(m, lists),
                bound == product_bound(m.size, max_gate_degree(m.gates)),
                bound > 0,
                forall|g: int, v: Variable|
                    0 <= g < m.gates.len() && #[trigger] terms_have(
                        shift_terms((#[trigger] m.gates[g]).terms, m.gates[g].column),
                        v,
                    ) ==> rotated(substitution@, v, columns@, omega.value(), m.size),
                power.value() == pow(d, g as nat) % p,
                result@.len() <= bound,
                forall|x: int| #[trigger]
                    poly_eval(result@, x) % p == gate_sum(
                        m.gates.subrange(0, g as int),
                        evaluations(m.selectors, x),
                        rotated_valuation(lists, omega.value(), x),
                        d,
                    ) % p,
            decreases self.gates.len() - g,
        {
            let ghost placed = m.gates[g as int];
            let ghost t = shift_terms(placed.terms, placed.column);
            let gate = &self.gates[g];
            proof {
                assert(self.gates@[g as int].remapped@ == t);
                assert(m.placement_wf(placed));
                lemma_placed_gate(m, placed);
                lemma_max_degree_member(m.gates, g as int);
                crate::compose::lemma_degree_terms_nonnegative(t);
                lemma_product_bound(m, terms_degree(t));
                assert(terms_degree(t) * (m.size - 1) <= max_gate_degree(m.gates) * (m.size - 1))
                    by (nonlinear_arith)
                    requires
                        terms_degree(t) <= max_gate_degree(m.gates),
                        m.size >= 4,
                ;
                lemma_product_bound(m, max_gate_degree(m.gates));
                assert(composable(t, substitution@, m.size));
            }
            let composed = gate.remapped.compose2(&substitution);
            let selector = &self.selectors[gate.selector_index];
            proof {
                assert(m.selectors[gate.selector_index as int] == selector@);
                assert(selector@.len() <= m.size);
            }
            let product = selector.times(&composed);
            let scaled = product.scaled(power);
            let next = result.plus(&scaled);
            proof {
                assert forall|x: int| #[trigger] poly_eval(next@, x) % p == gate_sum(
                    m.gates.subrange(0, g + 1),
                    evaluations(m.selectors, x),
                    rotated_valuation(lists, omega.value(), x),
                    d,
                ) % p by {
                    let u = rotated_valuation(lists, omega.value(), x);
                    let w = poly_valuation(substitution@, x);
                    assert forall|v: Variable| #[trigger] terms_have(t, v) implies w(v) % p == u(v)
                        % p by {
                        assert(rotated(substitution@, v, columns@, omega.value(), m.size));
                        assert(poly_eval(substitution@[v]@, x) % p == column_valuation(
                            columns@,
                            omega.value(),
                            x,
                        )(v) % p);
                    }
                    lemma_terms_value_cong(t, w, u, p);
                    let prefix = m.gates.subrange(0, g + 1);
                    assert(prefix.drop_last() =~= m.gates.subrange(0, g as int));
                    assert(prefix.last() == placed);
                    let e = evaluations(m.selectors, x);
                    let s = poly_eval(selector@, x);
                    let c = terms_value(t, u, p);
                    assert(e[placed.selector] == s % p);
                    vstd::arithmetic::div_mod::lemma_mod_twice(s, p);
                    lemma_cong_mul(s, e[placed.selector], poly_eval(composed@, x), c, p);
                    let power_value = pow(d, g as nat);
                    vstd::arithmetic::div_mod::lemma_mod_twice(power_value, p);
                    lemma_cong_mul(
                        poly_eval(product@, x),
                        e[placed.selector] * c,
                        power.value(),
                        power_value,
                        p,
                    );
                    lemma_cong_add(
                        poly_eval(result@, x),
                        gate_sum(m.gates.subrange(0, g as int), e, u, d),
                        poly_eval(scaled@, x),
                        e[placed.selector] * c * power_value,
                        p,
                    );
                    assert(poly_eval(next@, x) % p == (poly_eval(result@, x) + poly_eval(
                        scaled@,
                        x,
                    )) % p);
                }
                lemma_pow_adds(d, g as nat, 1);
                lemma_pow1(d);
                lemma_mod_mul(pow(d, g as nat), d, p);
            }
            result = next;
            power = power.times(delta);
            g += 1;
        }
        proof {
            assert(m.gates.subrange(0, m.gates.len() as int) =~= m.gates);
        }
        result
    }
}

} // verus!
