//! More laws about constraint expressions.
use crate::arith::{inverse, invertible, lemma_cong_mul, lemma_mod_mul, lemma_small, mod_pow};
use crate::builder::lemma_shifted_have;
use crate::degrees::{lemma_degree_above, lemma_degree_reached};
use crate::evaluation::{
    lemma_mod_pow_add, lemma_value_concat, lemma_value_product, lemma_value_same_terms,
    terms_defined,
};
use crate::expr::{
    assignment_fits, canonical, const_terms, is_normal_form, mono_degree, power_fits, product_fits,
    shiftable, signed_power_terms, terms_degree, valuation, var_terms, Constraint,
};
use crate::field::{Field, GL, Scalar};
use crate::history::lemma_same_value;
use crate::laws::lemma_normal_form_same;
use crate::monomial::{exponents_fit, fits_isize};
use crate::ops::{all_product, all_terms, Operand};
use crate::provability::lemma_shift_value;
use crate::syntax::{law_constant_value, law_variable_value, lemma_negative_power};
use crate::terms::{
    clearing, exponent, is_clearing, lemma_clearing_member, lemma_clearing_nonnegative,
    lemma_exponent_absent, lemma_exponent_at, lemma_mono_mul_exponent, lemma_mono_mul_wf, mono_has,
    mono_mul, monos_wf, shift_terms, terms_have, terms_value, terms_wf, Mono, Terms,
};
use crate::variable::{shift_variable, Variable};
use vstd::arithmetic::div_mod::lemma_mod_twice;
use vstd::arithmetic::power::{lemma_pow0, pow};
use vstd::prelude::*;

verus! {

/// Shifting the columns of a constraint by an offset keeps the rotations of its variables and adds
/// the offset to their columns. Its value is that of the constraint when every variable stands for
/// the one that is as many columns to the right.
pub proof fn law_shifted_columns(
    t: Terms,
    offset: int,
    v: Variable,
    s: spec_fn(Variable) -> int,
    u: spec_fn(Variable) -> int,
    p: int,
)
    requires
        shiftable(t, 0),
        shiftable(t, offset),
        forall|w: Variable, x: Variable|
            x.column_index == w.column_index + offset && x.rotation == w.rotation ==> #[trigger] u(w)
                == #[trigger] s(x),
    ensures
        terms_value(shift_terms(t, offset), s, p) == terms_value(t, u, p),
        terms_have(shift_terms(t, offset), v) <==> exists|w: Variable| #[trigger]
            terms_have(t, w) && v.column_index == w.column_index + offset && v.rotation
                == w.rotation,
{
    let shifted = |w: Variable| s(shift_variable(w, offset));
    lemma_shift_value(t, offset, s, p);
    assert forall|w: Variable| #[trigger] terms_have(t, w) implies shifted(w) == u(w) by {
        let x = shift_variable(w, offset);
        assert(x.column_index == w.column_index + offset && x.rotation == w.rotation);
        assert(u(w) == s(x));
    }
    lemma_same_value(t, shifted, u, p);
    lemma_shifted_have(t, offset, v);
    if exists|w: Variable| #[trigger]
        terms_have(t, w) && v.column_index == w.column_index + offset && v.rotation == w.rotation {
        let w = choose|w: Variable| #[trigger]
            terms_have(t, w) && v.column_index == w.column_index + offset && v.rotation
                == w.rotation;
        lemma_shifted_have(t, offset, w);
        assert(shift_variable(w, offset) == v);
    }
    if terms_have(shift_terms(t, offset), v) {
        let w = choose|w: Variable| #[trigger]
            terms_have(t, w) && v == shift_variable(w, offset);
        assert(terms_have(t, w));
        assert(v.column_index == w.column_index + offset && v.rotation == w.rotation);
    }
}

/// The variables of an expression are those with an exponent other than zero in some term.
pub proof fn law_variables_of_terms(t: Terms, v: Variable)
    requires
        monos_wf(t),
    ensures
        terms_have(t, v) <==> exists|i: int| 0 <= i < t.len() && #[trigger] exponent(t[i].0, v) != 0,
{
    if terms_have(t, v) {
        let i = choose|i: int| 0 <= i < t.len() && mono_has((#[trigger] t[i]).0, v);
        let j = choose|j: int| 0 <= j < t[i].0.len() && (#[trigger] t[i].0[j]).0 == v;
        lemma_exponent_at(t[i].0, j);
        assert(exponent(t[i].0, v) != 0);
    }
    if exists|i: int| 0 <= i < t.len() && #[trigger] exponent(t[i].0, v) != 0 {
        let i = choose|i: int| 0 <= i < t.len() && #[trigger] exponent(t[i].0, v) != 0;
        if !mono_has(t[i].0, v) {
            lemma_exponent_absent(t[i].0, v);
        }
        assert(mono_has(t[i].0, v));
    }
}

/// The value of an expression depends on the values of its variables and on nothing else.
pub proof fn law_value_depends_on_variables(
    t: Terms,
    s: spec_fn(Variable) -> int,
    u: spec_fn(Variable) -> int,
    p: int,
)
    requires
        forall|v: Variable| #[trigger] terms_have(t, v) ==> s(v) == u(v),
    ensures
        terms_value(t, s, p) == terms_value(t, u, p),
{
    lemma_same_value(t, s, u, p);
}

/// An expression is canonical if no variable has a negative exponent in any term.
pub proof fn law_canonical_exponents(t: Terms)
    requires
        monos_wf(t),
    ensures
        canonical(t) <==> forall|i: int, v: Variable|
            0 <= i < t.len() ==> #[trigger] exponent(t[i].0, v) >= 0,
{
    if canonical(t) {
        assert forall|i: int, v: Variable| 0 <= i < t.len() implies #[trigger] exponent(t[i].0, v)
            >= 0 by {
            if mono_has(t[i].0, v) {
                let j = choose|j: int| 0 <= j < t[i].0.len() && (#[trigger] t[i].0[j]).0 == v;
                lemma_exponent_at(t[i].0, j);
            } else {
                lemma_exponent_absent(t[i].0, v);
            }
        }
    }
    if forall|i: int, v: Variable| 0 <= i < t.len() ==> #[trigger] exponent(t[i].0, v) >= 0 {
        assert forall|i: int, j: int| 0 <= i < t.len() && 0 <= j < t[i].0.len() implies (
        #[trigger] t[i].0[j]).1 >= 0 by {
            lemma_exponent_at(t[i].0, j);
            assert(exponent(t[i].0, t[i].0[j].0) >= 0);
        }
    }
}

/// What an expression is multiplied with to clear its denominators makes all exponents non-negative,
/// and is as small as that allows: a variable that it holds is cancelled in some term.
pub proof fn law_smallest_denominator(k: Mono, t: Terms, i: int, v: Variable)
    requires
        is_clearing(k, t),
    ensures
        exponent(k, v) >= 0,
        0 <= i < t.len() ==> exponent(t[i].0, v) + exponent(k, v) >= 0,
        exponent(k, v) > 0 ==> exists|j: int|
            0 <= j < t.len() && #[trigger] exponent(t[j].0, v) + exponent(k, v) == 0,
{
    lemma_clearing_nonnegative(t, v);
    if 0 <= i < t.len() {
        lemma_clearing_member(t, i, v);
    }
    assert(exponent(k, v) == clearing(t, v));
    lemma_clearing_reached(t, v);
    if exponent(k, v) > 0 {
        let j = choose|j: int| 0 <= j < t.len() && -#[trigger] exponent(t[j].0, v) == clearing(t, v);
        assert(exponent(t[j].0, v) + exponent(k, v) == 0);
    }
}

/// The lowest exponent is that of some term.
proof fn lemma_clearing_reached(t: Terms, v: Variable)
    ensures
        clearing(t, v) == 0 || exists|j: int|
            0 <= j < t.len() && -#[trigger] exponent(t[j].0, v) == clearing(t, v),
    decreases t.len(),
{
    if t.len() > 0 {
        let front = t.drop_last();
        lemma_clearing_reached(front, v);
        if clearing(front, v) < -exponent(t.last().0, v) {
            assert(-exponent(t[t.len() - 1].0, v) == clearing(t, v));
        } else if clearing(front, v) != 0 {
            let j = choose|j: int|
                0 <= j < front.len() && -#[trigger] exponent(front[j].0, v) == clearing(front, v);
            assert(front[j] == t[j]);
            assert(-exponent(t[j].0, v) == clearing(t, v));
        }
    }
}

/// The value of the sum of a list of expressions is the sum of their values.
pub proof fn law_sum_of_list<F: Field>(
    list: Seq<Constraint<F>>,
    last: Constraint<F>,
    s: spec_fn(Variable) -> int,
    p: int,
)
    ensures
        terms_value(all_terms(list.push(last)), s, p) == terms_value(all_terms(list), s, p)
            + terms_value(last@, s, p),
        terms_value(all_terms(Seq::<Constraint<F>>::empty()), s, p) == 0,
{
    assert(list.push(last).drop_last() =~= list);
    lemma_value_concat(all_terms(list), last@, s, p);
}

/// The value of the product of a list of expressions is the product of their values, wherever these
/// are defined.
pub proof fn law_product_of_list<F: Field>(
    list: Seq<Constraint<F>>,
    last: Constraint<F>,
    s: spec_fn(Variable) -> int,
    p: int,
)
    requires
        p > 1,
        terms_defined(all_product(list), s, p),
        terms_defined(last@, s, p),
    ensures
        terms_value(all_product(list.push(last)), s, p) % p == (terms_value(all_product(list), s, p)
            * terms_value(last@, s, p)) % p,
        terms_value(all_product(Seq::<Constraint<F>>::empty()), s, p) == 1,
{
    assert(list.push(last).drop_last() =~= list);
    lemma_value_product(all_product(list), last@, s, p);
    law_constant_value(1, s, p);
}

/// The degree of an expression is the highest degree of its terms, or 0 if none is positive. The
/// degree of a monomial is the sum of its exponents.
pub proof fn law_degree(t: Terms, i: int, a: Mono, b: Mono, v: Variable, e: int)
    ensures
        0 <= i < t.len() ==> mono_degree(t[i].0) <= terms_degree(t),
        terms_degree(t) >= 0,
        terms_degree(t) > 0 ==> exists|j: int|
            0 <= j < t.len() && #[trigger] mono_degree(t[j].0) == terms_degree(t),
        mono_degree(a + b) == mono_degree(a) + mono_degree(b),
        mono_degree(seq![(v, e)]) == e,
{
    lemma_degree_reached(t);
    if terms_degree(t) > 0 {
        let j = choose|j: int|
            0 <= j < t.len() && mono_degree((#[trigger] t[j]).0) == terms_degree(t);
        assert(mono_degree(t[j].0) == terms_degree(t));
    }
    if 0 <= i < t.len() {
        lemma_degree_above(t, i);
    }
    lemma_degree_concat(a, b);
    assert(seq![(v, e)].drop_last() =~= Seq::<(Variable, int)>::empty());
    reveal_with_fuel(mono_degree, 2);
}

/// The degree of the factors of two monomials together.
proof fn lemma_degree_concat(a: Mono, b: Mono)
    ensures
        mono_degree(a + b) == mono_degree(a) + mono_degree(b),
    decreases b.len(),
{
    if b.len() == 0 {
        assert(a + b =~= a);
    } else {
        assert((a + b).drop_last() =~= a + b.drop_last());
        lemma_degree_concat(a, b.drop_last());
    }
}

/// Under a substitution, a constant has its value and a variable has the value that is substituted for
/// it.
pub proof fn law_evaluate_leaves<F: Field>(v: Variable, c: F, s: Map<Variable, F>)
    requires
        assignment_fits(var_terms(v), s),
    ensures
        terms_value(var_terms(v), valuation(s), F::modulus()) % F::modulus() == s[v].value(),
        terms_value(const_terms(c.value()), valuation(s), F::modulus()) % F::modulus()
            == c.value(),
        s.contains_key(v),
{
    let p = F::modulus();
    F::lemma_modulus();
    s[v].lemma_value_bounds();
    c.lemma_value_bounds();
    law_variable_value(v, valuation(s), p);
    law_constant_value(c.value(), valuation(s), p);
    crate::arith::lemma_small(s[v].value(), p);
    crate::arith::lemma_small(c.value(), p);
    assert(var_terms(v)[0].0[0].0 == v);
    assert(mono_has(var_terms(v)[0].0, v));
    assert(terms_have(var_terms(v), v));
}

/// Numbers stand for the constants that they are congruent to, and variables for themselves.
pub proof fn law_operands<F: Field>(
    n: isize,
    v: Variable,
    c: Constraint<F>,
    s: spec_fn(Variable) -> int,
)
    ensures
        terms_value(<isize as Operand<F>>::terms(n), s, F::modulus()) % F::modulus() == n as int
            % F::modulus(),
        terms_value(<Variable as Operand<F>>::terms(v), s, F::modulus()) % F::modulus() == s(v)
            % F::modulus(),
        <Constraint<F> as Operand<F>>::terms(c) == c@,
{
    let p = F::modulus();
    F::lemma_modulus();
    law_constant_value(n as int % p, s, p);
    vstd::arithmetic::div_mod::lemma_mod_twice(n as int, p);
    law_variable_value(v, s, p);
}

/// Field elements stand for themselves.
pub proof fn law_scalar_operands(a: Scalar, b: GL, s: spec_fn(Variable) -> int)
    ensures
        terms_value(<Scalar as Operand<Scalar>>::terms(a), s, Scalar::modulus()) == a.value(),
        terms_value(<GL as Operand<GL>>::terms(b), s, GL::modulus()) == b.value(),
{
    a.lemma_value_bounds();
    b.lemma_value_bounds();
    law_constant_value(a.value(), s, Scalar::modulus());
    law_constant_value(b.value(), s, GL::modulus());
}

/// A negative power of a single term times the opposite power of the term is 1, wherever the term is
/// defined and invertible.
pub proof fn law_negative_power_value(
    r: Terms,
    t: Terms,
    n: nat,
    s: spec_fn(Variable) -> int,
    p: int,
)
    requires
        p > 1,
        terms_wf(t, p),
        t.len() == 1,
        n > 0,
        is_normal_form(r, signed_power_terms(t, -(n as int), p), p),
        terms_defined(t, s, p),
        invertible(terms_value(t, s, p), p),
    ensures
        (terms_value(r, s, p) * pow(terms_value(t, s, p), n)) % p == 1,
{
    let e = -(n as int);
    let x = terms_value(t, s, p);
    let q = signed_power_terms(t, e, p);
    lemma_negative_power(t, e, s, p);
    lemma_normal_form_same(r, q, p);
    lemma_value_same_terms(r, q, s, p);
    let w = mod_pow(x, e, p);
    lemma_mod_pow_add(x, e, n as int, p);
    lemma_pow0(x);
    lemma_small(1, p);
    lemma_mod_mul(w, pow(x, n), p);
    lemma_mod_twice(pow(inverse(x, p), n), p);
    lemma_cong_mul(terms_value(r, s, p), w, pow(x, n), pow(x, n), p);
}

/// A product of two expressions can be handled if and only if the sums of the exponents of every
/// variable, in any two of their terms, are in the range of [`isize`].
pub proof fn law_product_range(a: Terms, b: Terms)
    requires
        monos_wf(a),
        monos_wf(b),
    ensures
        product_fits(a, b) <==> forall|i: int, j: int, v: Variable|
            0 <= i < a.len() && 0 <= j < b.len() ==> isize::MIN <= #[trigger] exponent(a[i].0, v)
                + #[trigger] exponent(b[j].0, v) <= isize::MAX,
{
    if product_fits(a, b) {
        assert forall|i: int, j: int, v: Variable|
            0 <= i < a.len() && 0 <= j < b.len() implies isize::MIN <= #[trigger] exponent(
            a[i].0,
            v,
        ) + #[trigger] exponent(b[j].0, v) <= isize::MAX by {
            let m = mono_mul(a[i].0, b[j].0);
            lemma_mono_mul_wf(a[i].0, b[j].0);
            lemma_mono_mul_exponent(a[i].0, b[j].0, v);
            if mono_has(m, v) {
                let k = choose|k: int| 0 <= k < m.len() && (#[trigger] m[k]).0 == v;
                lemma_exponent_at(m, k);
            } else {
                lemma_exponent_absent(m, v);
            }
        }
    }
    if forall|i: int, j: int, v: Variable|
        0 <= i < a.len() && 0 <= j < b.len() ==> isize::MIN <= #[trigger] exponent(a[i].0, v)
            + #[trigger] exponent(b[j].0, v) <= isize::MAX {
        assert forall|i: int, j: int| 0 <= i < a.len() && 0 <= j < b.len() implies exponents_fit(
            #[trigger] mono_mul(a[i].0, b[j].0),
        ) by {
            let m = mono_mul(a[i].0, b[j].0);
            lemma_mono_mul_wf(a[i].0, b[j].0);
            assert forall|k: int| 0 <= k < m.len() implies fits_isize((#[trigger] m[k]).1) by {
                lemma_exponent_at(m, k);
                lemma_mono_mul_exponent(a[i].0, b[j].0, m[k].0);
            }
        }
    }
}

/// A power of an expression can be handled if and only if the multiples of all its exponents are in the
/// range of [`isize`].
pub proof fn law_power_range(t: Terms, n: int)
    ensures
        power_fits(t, n) <==> forall|i: int, j: int|
            0 <= i < t.len() && 0 <= j < t[i].0.len() ==> isize::MIN <= (#[trigger] t[i].0[j]).1 * n
                <= isize::MAX,
{
}

} // verus!
