//! Laws about the evaluation of constraint expressions.
use crate::algebra::lemma_product_member;
use crate::arith::{invertible, lemma_small};
use crate::evaluation::{mono_defined, terms_defined};
use crate::expr::{
    assignment_fits, is_canonical_form, is_difference, is_normal_form, is_sum,
    lemma_canonical_variables, lemma_normal_form_member, valuation,
};
use crate::field::Field;
use crate::laws::{law_canonical_form_value, law_difference_value, law_product_value, law_sum_value};
use crate::terms::{
    coeff, exponent, is_clearing, lemma_coeff_absent, lemma_coeff_at, lemma_exponent_absent,
    lemma_exponent_at, lemma_mono_mul_exponent, lemma_mono_mul_wf, mono_has, mono_mul, mono_wf,
    product_terms, terms_have, terms_value, terms_wf, Mono, Terms,
};
use crate::variable::Variable;
use vstd::prelude::*;

verus! {

/// The monomial occurs in `t`.
pub open spec fn occurs(t: Terms, m: Mono) -> bool {
    exists|i: int| 0 <= i < t.len() && (#[trigger] t[i]).0 == m
}

/// A monomial whose coefficient is not zero occurs.
pub proof fn lemma_occurs(t: Terms, m: Mono)
    requires
        coeff(t, m) != 0,
    ensures
        occurs(t, m),
{
    if !occurs(t, m) {
        lemma_coeff_absent(t, m);
    }
}

/// The values fit a monomial.
spec fn mono_fits<F: Field>(m: Mono, s: Map<Variable, F>) -> bool {
    &&& forall|v: Variable| #[trigger] mono_has(m, v) ==> s.contains_key(v)
    &&& forall|j: int| 0 <= j < m.len() && (#[trigger] m[j]).1 < 0 ==> s[m[j].0].value() != 0
}

/// Values that fit an expression fit its monomials.
proof fn lemma_fits_mono<F: Field>(t: Terms, s: Map<Variable, F>, m: Mono)
    requires
        assignment_fits(t, s),
        occurs(t, m),
    ensures
        mono_fits(m, s),
{
    let i = choose|i: int| 0 <= i < t.len() && (#[trigger] t[i]).0 == m;
    assert forall|v: Variable| #[trigger] mono_has(m, v) implies s.contains_key(v) by {
        assert(mono_has(t[i].0, v));
        assert(terms_have(t, v));
    }
    assert forall|j: int| 0 <= j < m.len() && (#[trigger] m[j]).1 < 0 implies s[m[j].0].value()
        != 0 by {
        assert(t[i].0[j].1 < 0);
    }
}

/// Values that fit all monomials fit the expression.
proof fn lemma_monos_fit<F: Field>(t: Terms, s: Map<Variable, F>)
    requires
        forall|i: int| 0 <= i < t.len() ==> mono_fits((#[trigger] t[i]).0, s),
    ensures
        assignment_fits(t, s),
{
    assert forall|v: Variable| #[trigger] terms_have(t, v) implies s.contains_key(v) by {
        let i = choose|i: int| 0 <= i < t.len() && mono_has((#[trigger] t[i]).0, v);
        assert(mono_fits(t[i].0, s));
    }
    assert forall|i: int, j: int|
        0 <= i < t.len() && 0 <= j < t[i].0.len() && (#[trigger] t[i].0[j]).1
            < 0 implies s[t[i].0[j].0].value() != 0 by {
        assert(mono_fits(t[i].0, s));
    }
}

/// Values that fit two expressions fit their sum, and the value of the sum is the sum of the values.
pub proof fn law_evaluate_sum<F: Field>(a: Terms, b: Terms, r: Terms, s: Map<Variable, F>)
    requires
        is_sum(r, a, b, F::modulus()),
        assignment_fits(a, s),
        assignment_fits(b, s),
    ensures
        assignment_fits(r, s),
        terms_value(r, valuation(s), F::modulus()) % F::modulus() == (terms_value(
            a,
            valuation(s),
            F::modulus(),
        ) + terms_value(b, valuation(s), F::modulus())) % F::modulus(),
{
    let p = F::modulus();
    F::lemma_modulus();
    lemma_small(0, p);
    assert forall|i: int| 0 <= i < r.len() implies mono_fits((#[trigger] r[i]).0, s) by {
        let m = r[i].0;
        lemma_coeff_at(r, i, p);
        assert(coeff(r, m) == (coeff(a, m) + coeff(b, m)) % p);
        if coeff(a, m) != 0 {
            lemma_occurs(a, m);
            lemma_fits_mono(a, s, m);
        } else {
            lemma_occurs(b, m);
            lemma_fits_mono(b, s, m);
        }
    }
    lemma_monos_fit(r, s);
    law_sum_value(r, a, b, valuation(s), p);
}

/// Values that fit two expressions fit their difference, and the value of the difference is the
/// difference of the values.
pub proof fn law_evaluate_difference<F: Field>(a: Terms, b: Terms, r: Terms, s: Map<Variable, F>)
    requires
        is_difference(r, a, b, F::modulus()),
        assignment_fits(a, s),
        assignment_fits(b, s),
    ensures
        assignment_fits(r, s),
        terms_value(r, valuation(s), F::modulus()) % F::modulus() == (terms_value(
            a,
            valuation(s),
            F::modulus(),
        ) - terms_value(b, valuation(s), F::modulus())) % F::modulus(),
{
    let p = F::modulus();
    F::lemma_modulus();
    lemma_small(0, p);
    assert forall|i: int| 0 <= i < r.len() implies mono_fits((#[trigger] r[i]).0, s) by {
        let m = r[i].0;
        lemma_coeff_at(r, i, p);
        assert(coeff(r, m) == (coeff(a, m) - coeff(b, m)) % p);
        if coeff(a, m) != 0 {
            lemma_occurs(a, m);
            lemma_fits_mono(a, s, m);
        } else {
            lemma_occurs(b, m);
            lemma_fits_mono(b, s, m);
        }
    }
    lemma_monos_fit(r, s);
    law_difference_value(r, a, b, valuation(s), p);
}

/// The product of two monomials that values fit.
proof fn lemma_product_fits<F: Field>(m: Mono, n: Mono, s: Map<Variable, F>)
    requires
        mono_wf(m),
        mono_wf(n),
        mono_fits(m, s),
        mono_fits(n, s),
    ensures
        mono_fits(mono_mul(m, n), s),
{
    let k = mono_mul(m, n);
    lemma_mono_mul_wf(m, n);
    assert forall|j: int| 0 <= j < k.len() implies s.contains_key((#[trigger] k[j]).0) && (k[j].1 < 0
        ==> s[k[j].0].value() != 0) by {
        let v = k[j].0;
        lemma_exponent_at(k, j);
        lemma_mono_mul_exponent(m, n, v);
        lemma_exponent_use(m, v, s);
        lemma_exponent_use(n, v, s);
        if !mono_has(m, v) {
            lemma_exponent_absent(m, v);
        }
        if !mono_has(n, v) {
            lemma_exponent_absent(n, v);
        }
    }
    assert forall|v: Variable| #[trigger] mono_has(k, v) implies s.contains_key(v) by {
        let j = choose|j: int| 0 <= j < k.len() && (#[trigger] k[j]).0 == v;
    }
}

/// Variables with negative exponents have other values than 0.
proof fn lemma_exponent_use<F: Field>(m: Mono, v: Variable, s: Map<Variable, F>)
    requires
        mono_wf(m),
        mono_fits(m, s),
    ensures
        exponent(m, v) < 0 ==> s[v].value() != 0,
{
    if mono_has(m, v) {
        let i = choose|i: int| 0 <= i < m.len() && (#[trigger] m[i]).0 == v;
        lemma_exponent_at(m, i);
    } else {
        lemma_exponent_absent(m, v);
    }
}

/// Expressions that values fit are defined.
proof fn lemma_fits_defined<F: Field>(t: Terms, s: Map<Variable, F>)
    requires
        assignment_fits(t, s),
    ensures
        terms_defined(t, valuation(s), F::modulus()),
{
    let p = F::modulus();
    F::lemma_inverses();
    assert forall|i: int| 0 <= i < t.len() implies mono_defined(
        (#[trigger] t[i]).0,
        valuation(s),
        p,
    ) by {
        let m = t[i].0;
        assert forall|j: int| 0 <= j < m.len() implies (#[trigger] m[j]).1 >= 0 || invertible(
            valuation(s)(m[j].0),
            p,
        ) by {
            if m[j].1 < 0 {
                assert(t[i].0[j].1 < 0);
                let x = s[m[j].0];
                x.lemma_value_bounds();
                assert(invertible(x.value(), p));
            }
        }
    }
}

/// Values that fit two expressions fit their product, and the value of the product is the product of
/// the values.
pub proof fn law_evaluate_product<F: Field>(a: Terms, b: Terms, r: Terms, s: Map<Variable, F>)
    requires
        terms_wf(a, F::modulus()),
        terms_wf(b, F::modulus()),
        is_normal_form(r, product_terms(a, b), F::modulus()),
        assignment_fits(a, s),
        assignment_fits(b, s),
    ensures
        assignment_fits(r, s),
        terms_value(r, valuation(s), F::modulus()) % F::modulus() == (terms_value(
            a,
            valuation(s),
            F::modulus(),
        ) * terms_value(b, valuation(s), F::modulus())) % F::modulus(),
{
    let p = F::modulus();
    F::lemma_modulus();
    let goal = product_terms(a, b);
    assert forall|i: int| 0 <= i < r.len() implies mono_fits((#[trigger] r[i]).0, s) by {
        lemma_normal_form_member(r, goal, i, p);
        let k = choose|k: int| 0 <= k < goal.len() && (#[trigger] goal[k]).0 == r[i].0;
        lemma_product_member(a, b, k);
        let (x, y) = choose|x: int, y: int|
            0 <= x < a.len() && 0 <= y < b.len() && goal[k].0 == #[trigger] mono_mul(
                a[x].0,
                b[y].0,
            );
        assert(occurs(a, a[x].0) && occurs(b, b[y].0));
        lemma_fits_mono(a, s, a[x].0);
        lemma_fits_mono(b, s, b[y].0);
        lemma_product_fits(a[x].0, b[y].0, s);
    }
    lemma_monos_fit(r, s);
    lemma_fits_defined(a, s);
    lemma_fits_defined(b, s);
    law_product_value(r, a, b, valuation(s), p);
}

/// Values other than 0 fit an expression and its canonical form, and one has the value 0 if and only if
/// the other one has.
pub proof fn law_evaluate_canonical_form<F: Field>(t: Terms, r: Terms, s: Map<Variable, F>)
    requires
        terms_wf(t, F::modulus()),
        is_canonical_form(r, t, F::modulus()),
        forall|v: Variable| #[trigger]
            terms_have(t, v) ==> s.contains_key(v) && s[v].value() != 0,
    ensures
        assignment_fits(t, s),
        assignment_fits(r, s),
        terms_value(r, valuation(s), F::modulus()) % F::modulus() == 0 <==> terms_value(
            t,
            valuation(s),
            F::modulus(),
        ) % F::modulus() == 0,
{
    let p = F::modulus();
    F::lemma_modulus();
    let k = choose|k: Mono| is_clearing(k, t);
    assert(is_clearing(k, t));
    assert forall|i: int, j: int|
        0 <= i < t.len() && 0 <= j < t[i].0.len() && (#[trigger] t[i].0[j]).1
            < 0 implies s[t[i].0[j].0].value() != 0 by {
        assert(mono_has(t[i].0, t[i].0[j].0));
        assert(terms_have(t, t[i].0[j].0));
    }
    assert forall|v: Variable| #[trigger] terms_have(r, v) implies s.contains_key(v) by {
        lemma_canonical_variables(r, t, k, v, p);
    }
    lemma_fits_defined(t, s);
    law_canonical_form_value(r, t, k, valuation(s), p);
}

} // verus!
