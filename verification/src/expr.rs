//! Constraint expressions.
use crate::algebra::{
    lemma_mono_mul_within, lemma_mono_pow_wf, lemma_power_double, lemma_power_monos_wf,
    lemma_power_same_terms, lemma_power_single, lemma_product_associates, lemma_product_commutes,
    lemma_product_member, lemma_product_one, lemma_product_same_terms, lemma_product_within,
    mono_pow, mono_within, terms_within,
};
use crate::arith::{lemma_inverse_unique, lemma_mod_add, lemma_mod_mul, lemma_small, mod_pow};
use crate::assignment::Assignment;
use crate::field::{equal, is_zero, less, one, zero, Field};
use crate::monomial::{
    compare_monomials, copy_factors, exponents_fit, fits_isize, mono_of, multiply_variables,
    Comparison, Factors,
};
use crate::terms::{
    clearing, coeff, exponent, is_clearing, lemma_clearing_member, lemma_clearing_nonnegative,
    lemma_exponent_absent, lemma_exponent_at, lemma_exponent_concat, lemma_exponent_single,
    lemma_mono_mul_exponent, lemma_mono_unique, lemma_terms_less_irreflexive, terms_less,
    lemma_coeff_absent, lemma_coeff_at, lemma_coeff_bounds, lemma_coeff_concat, lemma_coeff_single,
    lemma_mono_less_irreflexive, lemma_mono_less_transitive, lemma_mono_mul_wf, mono_has, mono_less,
    mono_mul, mono_value, mono_wf, monos_wf, power_terms, product_terms, same_terms, scale_terms,
    shift_mono, shift_terms, terms_have, terms_value, terms_wf, weighted_sum, Mono, Terms,
};
use crate::variable::{magnitude, shift_variable, var_less, variable_less, Variable};
use vstd::arithmetic::div_mod::lemma_mod_twice;
use vstd::arithmetic::power::pow;
use vstd::prelude::*;

verus! {

/// A monomial with its coefficient.
#[derive(Debug)]
pub struct Term<F: Field> {
    /// The variables of the monomial and the exponents to which they are raised.
    pub factors: Factors,
    /// The coefficient.
    pub coefficient: F,
}

/// The sum that the given terms make up.
pub open spec fn terms_of<F: Field>(terms: Seq<Term<F>>) -> Terms {
    Seq::new(terms.len(), |i: int| (mono_of(terms[i].factors@), terms[i].coefficient.value()))
}

/// Inserting a term into a normal form.
proof fn lemma_insert(t: Terms, i: int, x: (Mono, int), p: int)
    requires
        terms_wf(t, p),
        0 <= i <= t.len(),
        mono_wf(x.0),
        0 < x.1 < p,
        forall|j: int| 0 <= j < i ==> mono_less((#[trigger] t[j]).0, x.0),
        i < t.len() ==> mono_less(x.0, t[i].0),
    ensures
        terms_wf(t.insert(i, x), p),
        forall|m: Mono| #[trigger]
            coeff(t.insert(i, x), m) == coeff(t, m) + if m == x.0 {
                x.1
            } else {
                0
            },
{
    let r = t.insert(i, x);
    assert forall|j: int, k: int| 0 <= j < k < r.len() implies mono_less(
        (#[trigger] r[j]).0,
        (#[trigger] r[k]).0,
    ) by {
        let rj = if j < i {
            t[j]
        } else if j == i {
            x
        } else {
            t[j - 1]
        };
        let rk = if k < i {
            t[k]
        } else if k == i {
            x
        } else {
            t[k - 1]
        };
        assert(r[j] == rj && r[k] == rk);
        if j == i {
            if k - 1 > i {
                assert(mono_less(t[i].0, t[k - 1].0));
                lemma_mono_less_transitive(x.0, t[i].0, t[k - 1].0);
            }
        }
    }
    assert forall|j: int| 0 <= j < r.len() implies mono_wf((#[trigger] r[j]).0) && 0 < r[j].1
        < p by {
        if j < i {
            assert(r[j] == t[j]);
        } else if j > i {
            assert(r[j] == t[j - 1]);
        }
    }
    assert forall|m: Mono| #[trigger]
        coeff(r, m) == coeff(t, m) + if m == x.0 {
            x.1
        } else {
            0
        } by {
        let before = t.subrange(0, i);
        let after = t.subrange(i, t.len() as int);
        assert(t =~= before + after);
        assert(r =~= (before + seq![x]) + after);
        lemma_coeff_concat(before, after, m);
        lemma_coeff_concat(before + seq![x], after, m);
        lemma_coeff_concat(before, seq![x], m);
        lemma_coeff_single(x, m);
    }
}

/// Removing a term from a normal form.
proof fn lemma_remove(t: Terms, i: int, p: int)
    requires
        terms_wf(t, p),
        0 <= i < t.len(),
    ensures
        terms_wf(t.remove(i), p),
        forall|m: Mono| #[trigger]
            coeff(t.remove(i), m) == if m == t[i].0 {
                0
            } else {
                coeff(t, m)
            },
{
    let r = t.remove(i);
    assert forall|j: int, k: int| 0 <= j < k < r.len() implies mono_less(
        (#[trigger] r[j]).0,
        (#[trigger] r[k]).0,
    ) by {
        assert(r[j] == if j < i {
            t[j]
        } else {
            t[j + 1]
        });
        assert(r[k] == if k < i {
            t[k]
        } else {
            t[k + 1]
        });
    }
    assert forall|j: int| 0 <= j < r.len() implies mono_wf((#[trigger] r[j]).0) && 0 < r[j].1
        < p by {
        assert(r[j] == if j < i {
            t[j]
        } else {
            t[j + 1]
        });
    }
    assert forall|m: Mono| #[trigger]
        coeff(r, m) == if m == t[i].0 {
            0
        } else {
            coeff(t, m)
        } by {
        let before = t.subrange(0, i);
        let after = t.subrange(i + 1, t.len() as int);
        assert(t =~= (before + seq![t[i]]) + after);
        assert(r =~= before + after);
        lemma_coeff_concat(before, after, m);
        lemma_coeff_concat(before + seq![t[i]], after, m);
        lemma_coeff_concat(before, seq![t[i]], m);
        lemma_coeff_single(t[i], m);
        if m == t[i].0 {
            lemma_coeff_at(t, i, p);
        }
    }
}

/// Changing a coefficient of a normal form.
proof fn lemma_update(t: Terms, i: int, c: int, p: int)
    requires
        terms_wf(t, p),
        0 <= i < t.len(),
        0 < c < p,
    ensures
        terms_wf(t.update(i, (t[i].0, c)), p),
        forall|m: Mono| #[trigger]
            coeff(t.update(i, (t[i].0, c)), m) == if m == t[i].0 {
                c
            } else {
                coeff(t, m)
            },
{
    let r = t.update(i, (t[i].0, c));
    assert forall|j: int| 0 <= j < r.len() implies (#[trigger] r[j]).0 == t[j].0 && mono_wf(r[j].0)
        && 0 < r[j].1 < p by {
        if j != i {
            assert(r[j] == t[j]);
        }
    }
    assert forall|j: int, k: int| 0 <= j < k < r.len() implies mono_less(
        (#[trigger] r[j]).0,
        (#[trigger] r[k]).0,
    ) by {
        assert(mono_less(t[j].0, t[k].0));
    }
    assert forall|m: Mono| #[trigger]
        coeff(r, m) == if m == t[i].0 {
            c
        } else {
            coeff(t, m)
        } by {
        let before = t.subrange(0, i);
        let after = t.subrange(i + 1, t.len() as int);
        let x = (t[i].0, c);
        assert(t =~= (before + seq![t[i]]) + after);
        assert(r =~= (before + seq![x]) + after);
        lemma_coeff_concat(before + seq![t[i]], after, m);
        lemma_coeff_concat(before, seq![t[i]], m);
        lemma_coeff_single(t[i], m);
        lemma_coeff_concat(before + seq![x], after, m);
        lemma_coeff_concat(before, seq![x], m);
        lemma_coeff_single(x, m);
        if m == t[i].0 {
            lemma_coeff_at(t, i, p);
        }
    }
}

/// Adds a term to a sum in normal form.
fn add_term<F: Field>(terms: &mut Vec<Term<F>>, factors: Factors, coefficient: F)
    requires
        terms_wf(terms_of(old(terms)@), F::modulus()),
        mono_wf(mono_of(factors@)),
    ensures
        terms_wf(terms_of(final(terms)@), F::modulus()),
        forall|m: Mono| #[trigger]
            coeff(terms_of(final(terms)@), m) == (coeff(terms_of(old(terms)@), m) + if m == mono_of(
                factors@,
            ) {
                coefficient.value()
            } else {
                0
            }) % F::modulus(),
{
    let ghost p = F::modulus();
    let ghost t = terms_of(terms@);
    let ghost x = mono_of(factors@);
    proof {
        F::lemma_modulus();
        coefficient.lemma_value_bounds();
        assert forall|m: Mono| 0 <= #[trigger] coeff(t, m) < p && coeff(t, m) % p == coeff(t, m) by {
            lemma_coeff_bounds(t, m, p);
            lemma_small(coeff(t, m), p);
        }
    }
    let mut i: usize = 0;
    while i < terms.len()
        invariant
            i <= terms.len(),
            t == terms_of(terms@),
            x == mono_of(factors@),
            p == F::modulus(),
            p > 0,
            terms_wf(t, p),
            mono_wf(x),
            0 <= coefficient.value() < p,
            terms@ == old(terms)@,
            forall|m: Mono| 0 <= #[trigger] coeff(t, m) < p && coeff(t, m) % p == coeff(t, m),
            forall|j: int| 0 <= j < i ==> mono_less((#[trigger] t[j]).0, x),
        ensures
            forall|j: int| 0 <= j < i ==> mono_less((#[trigger] t[j]).0, x),
            i <= terms.len(),
            i < terms.len() ==> mono_less(x, t[i as int].0),
            terms@ == old(terms)@,
        decreases terms.len() - i,
    {
        match compare_monomials(&terms[i].factors, &factors) {
            Comparison::Less => {
                assert(mono_less(t[i as int].0, x));
                i += 1;
            },
            Comparison::Equal => {
                let sum = terms[i].coefficient.plus(coefficient);
                proof {
                    lemma_coeff_at(t, i as int, p);
                    assert(t[i as int].0 == x);
                    sum.lemma_value_bounds();
                }
                if is_zero(sum) {
                    terms.remove(i);
                    proof {
                        lemma_remove(t, i as int, p);
                        assert(terms_of(terms@) =~= t.remove(i as int));
                    }
                } else {
                    terms[i].coefficient = sum;
                    proof {
                        lemma_update(t, i as int, sum.value(), p);
                        assert(terms_of(terms@) =~= t.update(i as int, (x, sum.value())));
                    }
                }
                return;
            },
            Comparison::Greater => {
                assert(mono_less(x, t[i as int].0));
                break;
            },
        }
    }
    if is_zero(coefficient) {
        return;
    }
    proof {
        lemma_insert(t, i as int, (x, coefficient.value()), p);
        assert forall|j: int| 0 <= j < t.len() implies (#[trigger] t[j]).0 != x by {
            lemma_mono_less_irreflexive(x);
            if j >= i {
                if j > i {
                    lemma_mono_less_transitive(x, t[i as int].0, t[j].0);
                }
            }
        }
        lemma_coeff_absent(t, x);
        lemma_small(coefficient.value(), p);
    }
    terms.insert(i, Term { factors, coefficient });
    proof {
        assert(terms_of(terms@) =~= t.insert(i as int, (x, coefficient.value())));
    }
}

/// The normal form of a constant.
pub open spec fn const_terms(value: int) -> Terms {
    if value == 0 {
        seq![]
    } else {
        seq![(Seq::<(Variable, int)>::empty(), value)]
    }
}

/// The normal form of a variable.
pub open spec fn var_terms(variable: Variable) -> Terms {
    seq![(seq![(variable, 1int)], 1int)]
}

/// `r` is the normal form of the sum of `a` and `b`.
pub open spec fn is_sum(r: Terms, a: Terms, b: Terms, p: int) -> bool {
    &&& terms_wf(r, p)
    &&& forall|m: Mono| #[trigger] coeff(r, m) == (coeff(a, m) + coeff(b, m)) % p
}

/// `r` is the normal form of the difference of `a` and `b`.
pub open spec fn is_difference(r: Terms, a: Terms, b: Terms, p: int) -> bool {
    &&& terms_wf(r, p)
    &&& forall|m: Mono| #[trigger] coeff(r, m) == (coeff(a, m) - coeff(b, m)) % p
}

/// `r` is the normal form of the sum of the terms `t`.
pub open spec fn is_normal_form(r: Terms, t: Terms, p: int) -> bool {
    &&& terms_wf(r, p)
    &&& forall|m: Mono| #[trigger] coeff(r, m) == coeff(t, m) % p
}

/// The terms of the product of `a` and `b` have exponents in the range of [`isize`].
pub open spec fn product_fits(a: Terms, b: Terms) -> bool {
    forall|i: int, j: int|
        0 <= i < a.len() && 0 <= j < b.len() ==> exponents_fit(
            #[trigger] mono_mul(a[i].0, b[j].0),
        )
}

/// Represents a PLONK constraint as a sum of monomials (implicitly constrained to equal 0).
///
/// Each monomial is in the form `coeff * var0^exp0 * var1^exp1 * ...`, where `coeff` is a constant
/// scalar, the `var` variables are witness columns, and the `exp` variables are constant exponents.
///
/// A constraint is always in normal form: monomials are ordered and different from one another,
/// there are no zero exponents and no zero coefficients.
#[derive(Debug)]
pub struct Constraint<F: Field> {
    /// The monomials in this constraint, with their coefficients.
    terms: Vec<Term<F>>,
}

impl<F: Field> View for Constraint<F> {
    type V = Terms;

    closed spec fn view(&self) -> Terms {
        terms_of(self.terms@)
    }
}

impl<F: Field> Constraint<F> {
    /// The constraint is in normal form.
    #[verifier::type_invariant]
    pub open spec fn wf(self) -> bool {
        terms_wf(self@, F::modulus())
    }

    /// Makes a [`Constraint`] whose expression is a constant value.
    pub fn make_const(value: F) -> (ret: Self)
        ensures
            ret@ == const_terms(value.value()),
    {
        let mut terms: Vec<Term<F>> = Vec::new();
        if !is_zero(value) {
            let factors: Factors = Vec::new();
            terms.push(Term { factors, coefficient: value });
            proof {
                value.lemma_value_bounds();
                assert(mono_of(factors@) =~= Seq::<(Variable, int)>::empty());
            }
        }
        proof {
            assert(terms_of(terms@) =~= const_terms(value.value()));
        }
        Constraint { terms }
    }

    /// Makes a `Constraint` whose expression is a single variable reference.
    ///
    /// `column_index` is the index of the witness column the variable refers to. `rotation` is the
    /// (possibly negative) row offset relative to where the [`Constraint`] applies. Non-zero
    /// rotations allow gates to refer to witness cells from other rows.
    pub fn make_var(column_index: usize, rotation: isize) -> (ret: Self)
        ensures
            ret@ == var_terms(Variable { column_index, rotation }),
    {
        let mut factors: Factors = Vec::new();
        factors.push((Variable::new(column_index, rotation), 1));
        let mut terms: Vec<Term<F>> = Vec::new();
        terms.push(Term { factors, coefficient: one::<F>() });
        proof {
            F::lemma_modulus();
            assert(mono_of(factors@) =~= seq![(Variable { column_index, rotation }, 1int)]);
            assert(terms_of(terms@) =~= var_terms(Variable { column_index, rotation }));
        }
        Constraint { terms }
    }

    /// Makes a NOP constraint, ie. one that simply constrains `0 == 0`.
    ///
    /// This type of gate can be used for revealing specific wires.
    ///
    /// The returned constraint is exactly the same as `Constraint::default()`.
    pub fn nop() -> (ret: Self)
        ensures
            ret@ == Seq::<(Mono, int)>::empty(),
    {
        let terms: Vec<Term<F>> = Vec::new();
        proof {
            assert(terms_of(terms@) =~= Seq::<(Mono, int)>::empty());
        }
        Constraint { terms }
    }

    /// The number of monomials.
    pub fn num_terms(&self) -> (ret: usize)
        ensures
            ret == self@.len(),
    {
        self.terms.len()
    }

    /// The term at the given position.
    pub fn term(&self, index: usize) -> (ret: &Term<F>)
        requires
            index < self@.len(),
        ensures
            self@[index as int] == (mono_of(ret.factors@), ret.coefficient.value()),
    {
        &self.terms[index]
    }

    /// Adds two constraints.
    pub fn plus(&self, rhs: &Self) -> (ret: Self)
        ensures
            is_sum(ret@, self@, rhs@, F::modulus()),
    {
        let ghost p = F::modulus();
        let ghost a = self@;
        let ghost b = rhs@;
        let mut terms = copy_terms(&self.terms);
        let mut i: usize = 0;
        proof {
            use_type_invariant(self);
            use_type_invariant(rhs);
            F::lemma_modulus();
            assert(b.subrange(0, 0) =~= seq![]);
            assert forall|m: Mono| #[trigger]
                coeff(terms_of(terms@), m) == (coeff(a, m) + coeff(b.subrange(0, 0), m)) % p by {
                lemma_coeff_bounds(a, m, p);
                lemma_small(coeff(a, m), p);
            }
        }
        while i < rhs.terms.len()
            invariant
                i <= rhs.terms.len(),
                p == F::modulus(),
                p > 0,
                b == terms_of(rhs.terms@),
                terms_wf(b, p),
                terms_wf(terms_of(terms@), p),
                forall|m: Mono| #[trigger]
                    coeff(terms_of(terms@), m) == (coeff(a, m) + coeff(
                        b.subrange(0, i as int),
                        m,
                    )) % p,
            decreases rhs.terms.len() - i,
        {
            let ghost before = terms_of(terms@);
            let ghost x = b[i as int];
            proof {
                assert(x == (mono_of(rhs.terms@[i as int].factors@), rhs.terms@[i as int].coefficient.value()));
            }
            add_term(&mut terms, copy_factors(&rhs.terms[i].factors), rhs.terms[i].coefficient);
            proof {
                assert forall|m: Mono| #[trigger]
                    coeff(terms_of(terms@), m) == (coeff(a, m) + coeff(
                        b.subrange(0, i + 1),
                        m,
                    )) % p by {
                    lemma_coeff_subrange_step(b, i as int, m);
                    let d: int = if m == x.0 {
                        x.1
                    } else {
                        0
                    };
                    lemma_mod_add(coeff(a, m) + coeff(b.subrange(0, i as int), m), d, p);
                    assert(coeff(before, m) == (coeff(a, m) + coeff(b.subrange(0, i as int), m)) % p);
                }
            }
            i += 1;
        }
        proof {
            assert(b.subrange(0, b.len() as int) =~= b);
        }
        Constraint { terms }
    }

    /// Negates a constraint.
    pub fn negated(&self) -> (ret: Self)
        ensures
            is_difference(ret@, seq![], self@, F::modulus()),
            ret@.len() == self@.len(),
    {
        let ghost p = F::modulus();
        let ghost a = self@;
        let mut terms: Vec<Term<F>> = Vec::new();
        let mut i: usize = 0;
        proof {
            use_type_invariant(self);
            F::lemma_modulus();
        }
        while i < self.terms.len()
            invariant
                i <= self.terms.len(),
                p == F::modulus(),
                p > 0,
                a == terms_of(self.terms@),
                terms_wf(a, p),
                terms@.len() == i,
                forall|j: int|
                    0 <= j < i ==> (#[trigger] terms_of(terms@)[j]) == (a[j].0, p - a[j].1),
            decreases self.terms.len() - i,
        {
            let ghost before = terms_of(terms@);
            let ghost c = a[i as int].1;
            let coefficient = self.terms[i].coefficient.negated();
            proof {
                assert(self.terms@[i as int].coefficient.value() == c);
                assert((-c) % p == p - c) by (nonlinear_arith)
                    requires
                        0 < c < p,
                ;
            }
            terms.push(Term { factors: copy_factors(&self.terms[i].factors), coefficient });
            proof {
                assert forall|j: int| 0 <= j < i + 1 implies (#[trigger] terms_of(terms@)[j]) == (
                    a[j].0,
                    p - a[j].1,
                ) by {
                    if j < i {
                        assert(terms_of(terms@)[j] == before[j]);
                    }
                }
            }
            i += 1;
        }
        proof {
            let r = terms_of(terms@);
            assert forall|j: int, k: int| 0 <= j < k < r.len() implies mono_less(
                (#[trigger] r[j]).0,
                (#[trigger] r[k]).0,
            ) by {
                assert(mono_less(a[j].0, a[k].0));
            }
            assert forall|j: int| 0 <= j < r.len() implies mono_wf((#[trigger] r[j]).0) && 0
                < r[j].1 < p by {
                assert(mono_wf(a[j].0));
            }
            assert forall|m: Mono| #[trigger]
                coeff(r, m) == (coeff(Seq::<(Mono, int)>::empty(), m) - coeff(a, m)) % p by {
                lemma_coeff_bounds(a, m, p);
                if exists|k: int| 0 <= k < a.len() && (#[trigger] a[k]).0 == m {
                    let k = choose|k: int| 0 <= k < a.len() && (#[trigger] a[k]).0 == m;
                    lemma_coeff_at(a, k, p);
                    assert(r[k] == (a[k].0, p - a[k].1));
                    lemma_coeff_at(r, k, p);
                    let c = a[k].1;
                    assert((-c) % p == p - c) by (nonlinear_arith)
                        requires
                            0 < c < p,
                    ;
                } else {
                    assert forall|k: int| 0 <= k < r.len() implies (#[trigger] r[k]).0 != m by {
                        assert(a[k].0 != m);
                    }
                    lemma_coeff_absent(r, m);
                    lemma_small(0, p);
                }
            }
        }
        Constraint { terms }
    }

    /// Subtracts a constraint from another.
    pub fn minus(&self, rhs: &Self) -> (ret: Self)
        ensures
            is_difference(ret@, self@, rhs@, F::modulus()),
    {
        let opposite = rhs.negated();
        let ret = self.plus(&opposite);
        proof {
            let p = F::modulus();
            F::lemma_modulus();
            assert forall|m: Mono| #[trigger]
                coeff(ret@, m) == (coeff(self@, m) - coeff(rhs@, m)) % p by {
                assert(coeff(opposite@, m) == (coeff(Seq::<(Mono, int)>::empty(), m) - coeff(
                    rhs@,
                    m,
                )) % p);
                lemma_mod_add(coeff(self@, m), -coeff(rhs@, m), p);
            }
        }
        ret
    }
}

/// Raising `t` to the power `n` keeps the exponents in the range of [`isize`].
pub open spec fn power_fits(t: Terms, n: int) -> bool {
    forall|i: int, j: int|
        0 <= i < t.len() && 0 <= j < t[i].0.len() ==> fits_isize((#[trigger] t[i].0[j]).1 * n)
}

/// The terms whose normal form is `t` raised to the power `n`. Negative powers are those of single
/// terms.
pub open spec fn signed_power_terms(t: Terms, n: int, p: int) -> Terms {
    if n >= 0 {
        power_terms(t, n as nat)
    } else {
        seq![(mono_pow(t[0].0, n), mod_pow(t[0].1, n, p))]
    }
}

impl<F: Field> Constraint<F> {
    /// Multiplies two constraints.
    pub fn times(&self, rhs: &Self) -> (ret: Self)
        requires
            product_fits(self@, rhs@),
        ensures
            is_normal_form(ret@, product_terms(self@, rhs@), F::modulus()),
    {
        let ghost p = F::modulus();
        let ghost a = self@;
        let ghost b = rhs@;
        let mut terms: Vec<Term<F>> = Vec::new();
        let mut i: usize = 0;
        proof {
            use_type_invariant(self);
            use_type_invariant(rhs);
            F::lemma_modulus();
            lemma_small(0, p);
            assert(product_terms(a.subrange(0, 0), b) =~= seq![]);
            assert(terms_of(terms@) =~= seq![]);
        }
        while i < self.terms.len()
            invariant
                i <= self.terms.len(),
                p == F::modulus(),
                p > 0,
                a == terms_of(self.terms@),
                b == terms_of(rhs.terms@),
                terms_wf(a, p),
                terms_wf(b, p),
                product_fits(a, b),
                is_normal_form(terms_of(terms@), product_terms(a.subrange(0, i as int), b), p),
            decreases self.terms.len() - i,
        {
            let ghost done = product_terms(a.subrange(0, i as int), b);
            let ghost k = a[i as int];
            let ghost row = scale_terms(b, k.0, k.1);
            let mut j: usize = 0;
            proof {
                assert(row.subrange(0, 0) =~= seq![]);
                assert(done + row.subrange(0, 0) =~= done);
                assert(k == (
                    mono_of(self.terms@[i as int].factors@),
                    self.terms@[i as int].coefficient.value(),
                ));
            }
            while j < rhs.terms.len()
                invariant
                    i < self.terms.len(),
                    j <= rhs.terms.len(),
                    p == F::modulus(),
                    p > 0,
                    a == terms_of(self.terms@),
                    b == terms_of(rhs.terms@),
                    terms_wf(a, p),
                    terms_wf(b, p),
                    product_fits(a, b),
                    k == a[i as int],
                    k == (
                        mono_of(self.terms@[i as int].factors@),
                        self.terms@[i as int].coefficient.value(),
                    ),
                    row == scale_terms(b, k.0, k.1),
                    is_normal_form(terms_of(terms@), done + row.subrange(0, j as int), p),
                decreases rhs.terms.len() - j,
            {
                let ghost before = terms_of(terms@);
                let ghost l = b[j as int];
                let ghost x = row[j as int];
                proof {
                    assert(l == (
                        mono_of(rhs.terms@[j as int].factors@),
                        rhs.terms@[j as int].coefficient.value(),
                    ));
                    assert(exponents_fit(mono_mul(a[i as int].0, b[j as int].0)));
                    lemma_mono_mul_wf(k.0, l.0);
                }
                let factors = multiply_variables(&self.terms[i].factors, &rhs.terms[j].factors);
                let coefficient = self.terms[i].coefficient.times(rhs.terms[j].coefficient);
                proof {
                    assert(mono_of(factors@) == x.0);
                    assert(coefficient.value() == x.1 % p);
                }
                add_term(&mut terms, factors, coefficient);
                proof {
                    let next = done + row.subrange(0, j + 1);
                    assert forall|m: Mono| #[trigger]
                        coeff(terms_of(terms@), m) == coeff(next, m) % p by {
                        lemma_coeff_concat(done, row.subrange(0, j as int), m);
                        lemma_coeff_concat(done, row.subrange(0, j + 1), m);
                        lemma_coeff_subrange_step(row, j as int, m);
                        let sofar = coeff(done + row.subrange(0, j as int), m);
                        assert(coeff(before, m) == sofar % p);
                        if m == x.0 {
                            lemma_mod_add(sofar, x.1, p);
                        } else {
                            lemma_mod_add(sofar, 0, p);
                        }
                    }
                }
                j += 1;
            }
            proof {
                assert(row.subrange(0, row.len() as int) =~= row);
                assert(a.subrange(0, i + 1).drop_last() =~= a.subrange(0, i as int));
                assert(a.subrange(0, i + 1).last() == k);
            }
            i += 1;
        }
        proof {
            assert(a.subrange(0, a.len() as int) =~= a);
        }
        Constraint { terms }
    }

    /// Copies a constraint.
    pub fn copy(&self) -> (ret: Self)
        ensures
            ret@ == self@,
    {
        proof {
            use_type_invariant(self);
        }
        Constraint { terms: copy_terms(&self.terms) }
    }

    /// Raises a single term to a power other than 0.
    fn single_power(&self, exponent: isize) -> (ret: Self)
        requires
            self@.len() == 1,
            exponent != 0,
            power_fits(self@, exponent as int),
        ensures
            is_normal_form(
                ret@,
                seq![
                    (
                        mono_pow(self@[0].0, exponent as int),
                        mod_pow(self@[0].1, exponent as int, F::modulus()),
                    ),
                ],
                F::modulus(),
            ),
    {
        let ghost p = F::modulus();
        let ghost m = self@[0].0;
        let ghost c = self@[0].1;
        let source = &self.terms[0].factors;
        proof {
            use_type_invariant(self);
            F::lemma_modulus();
            assert(self@[0] == (mono_of(source@), self.terms@[0].coefficient.value()));
        }
        let mut factors: Factors = Vec::new();
        let mut i: usize = 0;
        while i < source.len()
            invariant
                i <= source.len(),
                m == mono_of(source@),
                self@.len() == 1,
                self@[0].0 == m,
                power_fits(self@, exponent as int),
                factors@.len() == i,
                forall|j: int|
                    0 <= j < i ==> (#[trigger] factors@[j]).0 == m[j].0 && factors@[j].1 == m[j].1
                        * exponent,
            decreases source.len() - i,
        {
            proof {
                assert(fits_isize(self@[0].0[i as int].1 * exponent));
                assert(m[i as int] == (source@[i as int].0, source@[i as int].1 as int));
            }
            factors.push((source[i].0, source[i].1 * exponent));
            i += 1;
        }
        let coefficient = self.terms[0].coefficient;
        let base = if exponent < 0 {
            match coefficient.invert() {
                Some(inverse) => {
                    proof {
                        lemma_inverse_unique(c, inverse.value(), p);
                    }
                    inverse
                },
                None => coefficient,
            }
        } else {
            coefficient
        };
        let power = base.pow(magnitude(exponent));
        let mut terms: Vec<Term<F>> = Vec::new();
        let ghost goal = seq![(mono_pow(m, exponent as int), mod_pow(c, exponent as int, p))];
        proof {
            assert(mono_of(factors@) =~= mono_pow(m, exponent as int));
            lemma_mono_pow_wf(m, exponent as int);
            assert(power.value() == goal[0].1);
            assert(terms_of(terms@) =~= seq![]);
        }
        add_term(&mut terms, factors, power);
        proof {
            assert forall|k: Mono| #[trigger] coeff(terms_of(terms@), k) == coeff(goal, k) % p by {
                lemma_coeff_single(goal[0], k);
            }
        }
        Constraint { terms }
    }

    /// Raises the constraint to a power.
    ///
    /// Negative exponents are supported where the constraint is a single monomial, and they actually
    /// perform modular inversion.
    pub fn power(&self, exponent: isize) -> (ret: Self)
        requires
            exponent < 0 ==> self@.len() == 1,
            power_fits(self@, exponent as int),
        ensures
            is_normal_form(
                ret@,
                signed_power_terms(self@, exponent as int, F::modulus()),
                F::modulus(),
            ),
    {
        let ghost p = F::modulus();
        let ghost t = self@;
        proof {
            use_type_invariant(self);
            F::lemma_modulus();
            lemma_normal_form_self(t, p);
        }
        if exponent == 0 {
            let ret = Constraint::make_const(one::<F>());
            proof {
                use_type_invariant(&ret);
                assert(ret@ =~= power_terms(t, 0));
                lemma_normal_form_self(ret@, p);
            }
            return ret;
        }
        if exponent == 1 {
            proof {
                lemma_product_one(t, p);
                assert(power_terms(t, 1) == product_terms(power_terms(t, 0), t));
            }
            return self.copy();
        }
        if self.terms.len() == 1 {
            proof {
                assert(t =~= seq![(t[0].0, t[0].1)]);
                if exponent > 0 {
                    let n = exponent as nat;
                    let a = power_terms(t, n);
                    let b = seq![(mono_pow(t[0].0, n as int), mod_pow(t[0].1, n as int, p))];
                    lemma_power_single(t[0].0, t[0].1, n);
                    assert forall|m: Mono| #[trigger] coeff(a, m) % p == coeff(b, m) % p by {
                        lemma_coeff_single(a[0], m);
                        lemma_coeff_single(b[0], m);
                        lemma_mod_twice(pow(t[0].1, n), p);
                    }
                }
            }
            return self.single_power(exponent);
        }
        let ghost n = exponent as nat;
        let ghost hi = isize::MAX as int / exponent as int;
        let ghost lo = -((-(isize::MIN as int)) / exponent as int);
        let mut result = Constraint::make_const(one::<F>());
        let mut base = self.copy();
        let mut rest: usize = exponent as usize;
        // `result` is within `used` times the bounds, `base` within `step` times.
        let ghost mut used: int = 0;
        let ghost mut step: int = 1;
        proof {
            assert forall|i: int| 0 <= i < t.len() implies mono_within((#[trigger] t[i]).0, lo, hi) by {
                assert forall|j: int| 0 <= j < t[i].0.len() implies lo <= (#[trigger] t[i].0[j]).1
                    <= hi by {
                    lemma_quotient_bounds(t[i].0[j].1, exponent as int);
                }
            }
            lemma_quotient_fits(exponent as int);
            assert(result@ =~= power_terms(t, 0));
            lemma_power_one_left(power_terms(t, n), p);
            lemma_bounds_scale(lo, hi, 0, 1);
        }
        while rest > 0
            invariant
                p == F::modulus(),
                p > 1,
                monos_wf(t),
                n == exponent,
                n > 0,
                same_terms(
                    power_terms(t, n),
                    product_terms(result@, power_terms(base@, rest as nat)),
                    p,
                ),
                used >= 0,
                step > 0,
                used + step * rest <= n,
                rest == 0 || used + step * rest == n,
                lo <= 0 <= hi,
                fits_isize(lo * n) && fits_isize(hi * n),
                terms_within(result@, lo * used, hi * used),
                terms_within(base@, lo * step, hi * step),
            decreases rest,
        {
            let ghost old_rest = rest as nat;
            let ghost half = (rest / 2) as nat;
            let ghost r0 = result@;
            let ghost b0 = base@;
            proof {
                use_type_invariant(&result);
                use_type_invariant(&base);
                assert(step * rest >= step) by (nonlinear_arith)
                    requires
                        step > 0,
                        rest >= 1,
                ;
                lemma_bounds_scale(lo, hi, used, step);
                lemma_power_monos_wf(b0, old_rest);
            }
            if rest % 2 == 1 {
                proof {
                    lemma_product_in_range(r0, b0, lo, hi, used, step, n as int);
                }
                result = result.times(&base);
                proof {
                    use_type_invariant(&result);
                    lemma_same_of_normal(result@, product_terms(r0, b0), p);
                    lemma_product_within(
                        result@,
                        r0,
                        b0,
                        lo * used,
                        hi * used,
                        lo * step,
                        hi * step,
                        p,
                    );
                    assert(lo * used + lo * step == lo * (used + step)) by (nonlinear_arith);
                    assert(hi * used + hi * step == hi * (used + step)) by (nonlinear_arith);
                    lemma_power_odd_step(power_terms(t, n), r0, result@, b0, old_rest, p);
                    assert(step * rest == step + step * (rest - 1)) by (nonlinear_arith);
                    used = used + step;
                }
                rest = rest - 1;
            }
            let ghost r1 = result@;
            let ghost even = rest as nat;
            proof {
                assert(even == 2 * half);
                assert(same_terms(
                    power_terms(t, n),
                    product_terms(r1, power_terms(b0, even)),
                    p,
                ));
            }
            rest = rest / 2;
            if rest > 0 {
                proof {
                    assert(step * even >= step + step) by (nonlinear_arith)
                        requires
                            step > 0,
                            even >= 2,
                    ;
                    lemma_bounds_scale(lo, hi, step, step);
                    lemma_product_in_range(b0, b0, lo, hi, step, step, n as int);
                }
                base = base.times(&base);
                proof {
                    use_type_invariant(&base);
                    lemma_same_of_normal(base@, product_terms(b0, b0), p);
                    lemma_product_within(
                        base@,
                        b0,
                        b0,
                        lo * step,
                        hi * step,
                        lo * step,
                        hi * step,
                        p,
                    );
                    assert(lo * step + lo * step == lo * (step + step)) by (nonlinear_arith);
                    assert(hi * step + hi * step == hi * (step + step)) by (nonlinear_arith);
                    lemma_power_even_step(power_terms(t, n), r1, b0, base@, half, p);
                    assert(step * even == (step + step) * half) by (nonlinear_arith)
                        requires
                            even == 2 * half,
                    ;
                    step = step + step;
                }
            } else {
                proof {
                    assert(power_terms(b0, 0) == power_terms(base@, 0));
                    assert(step * 0 == 0);
                }
            }
        }
        proof {
            use_type_invariant(&result);
            lemma_power_one_right(result@, p);
            assert(power_terms(base@, 0) == power_terms(result@, 0));
            assert forall|m: Mono| #[trigger] coeff(result@, m) == coeff(power_terms(t, n), m) % p by {
                lemma_coeff_bounds(result@, m, p);
                lemma_small(coeff(result@, m), p);
                assert(coeff(power_terms(t, n), m) % p == coeff(
                    product_terms(result@, power_terms(base@, 0)),
                    m,
                ) % p);
            }
        }
        result
    }

    /// Divides a constraint by another, which must have exactly one monomial.
    pub fn divided_by(&self, rhs: &Self) -> (ret: Self)
        requires
            rhs@.len() == 1,
            power_fits(rhs@, -1),
            product_fits(
                self@,
                seq![(mono_pow(rhs@[0].0, -1), mod_pow(rhs@[0].1, -1, F::modulus()))],
            ),
        ensures
            is_normal_form(
                ret@,
                product_terms(self@, signed_power_terms(rhs@, -1, F::modulus())),
                F::modulus(),
            ),
    {
        let inverse = rhs.power(-1);
        let ghost p = F::modulus();
        let ghost goal = signed_power_terms(rhs@, -1, p);
        proof {
            F::lemma_modulus();
            use_type_invariant(self);
            use_type_invariant(&inverse);
            lemma_same_of_normal(inverse@, goal, p);
            assert forall|i: int, j: int|
                0 <= i < self@.len() && 0 <= j < inverse@.len() implies exponents_fit(
                #[trigger] mono_mul(self@[i].0, inverse@[j].0),
            ) by {
                lemma_normal_form_member(inverse@, goal, j, p);
                let k = choose|k: int| 0 <= k < goal.len() && (#[trigger] goal[k]).0 == inverse@[j].0;
                assert(exponents_fit(mono_mul(self@[i].0, goal[k].0)));
            }
        }
        let ret = self.times(&inverse);
        proof {
            assert(same_terms(self@, self@, p));
            lemma_product_same_terms(self@, self@, inverse@, goal, p);
            assert forall|m: Mono| #[trigger]
                coeff(ret@, m) == coeff(product_terms(self@, goal), m) % p by {
                assert(coeff(product_terms(self@, inverse@), m) % p == coeff(
                    product_terms(self@, goal),
                    m,
                ) % p);
            }
        }
        ret
    }
}

/// No exponent is negative.
pub open spec fn canonical(t: Terms) -> bool {
    forall|i: int, j: int|
        0 <= i < t.len() && 0 <= j < t[i].0.len() ==> (#[trigger] t[i].0[j]).1 >= 0
}

/// `r` is the canonical form of `t`: the normal form of the product with the smallest monomial that
/// clears the denominators.
pub open spec fn is_canonical_form(r: Terms, t: Terms, p: int) -> bool {
    &&& canonical(r)
    &&& exists|k: Mono| is_clearing(k, t)
    &&& forall|k: Mono| #[trigger]
        is_clearing(k, t) ==> is_normal_form(r, product_terms(t, seq![(k, 1int)]), p)
}

/// The sum of the exponents of a monomial.
pub open spec fn mono_degree(m: Mono) -> int
    decreases m.len(),
{
    if m.len() == 0 {
        0
    } else {
        mono_degree(m.drop_last()) + m.last().1
    }
}

/// The highest degree of the monomials.
pub open spec fn terms_degree(t: Terms) -> int
    decreases t.len(),
{
    if t.len() == 0 {
        0
    } else if terms_degree(t.drop_last()) < mono_degree(t.last().0) {
        mono_degree(t.last().0)
    } else {
        terms_degree(t.drop_last())
    }
}

/// The variables strictly increase.
pub open spec fn variables_sorted(s: Seq<Variable>) -> bool {
    forall|i: int, j: int| 0 <= i < j < s.len() ==> var_less(#[trigger] s[i], #[trigger] s[j])
}

/// The values of an assignment's variables.
pub open spec fn valuation<F: Field>(s: Map<Variable, F>) -> spec_fn(Variable) -> int {
    |v: Variable| s[v].value()
}

/// All variables of `t` have values, and those with a negative exponent have other values than 0.
pub open spec fn assignment_fits<F: Field>(t: Terms, s: Map<Variable, F>) -> bool {
    &&& forall|v: Variable| #[trigger] terms_have(t, v) ==> s.contains_key(v)
    &&& forall|i: int, j: int|
        0 <= i < t.len() && 0 <= j < t[i].0.len() && (#[trigger] t[i].0[j]).1 < 0
            ==> s[t[i].0[j].0].value() != 0
}

/// All variables of `t` are columns, and still are when shifted.
pub open spec fn shiftable(t: Terms, offset: int) -> bool {
    forall|v: Variable| #[trigger]
        terms_have(t, v) ==> v.column_index <= isize::MAX && 0 <= v.column_index + offset
            <= isize::MAX
}

impl<F: Field> Constraint<F> {
    /// Returns the lowest column index of the constraint's variables, or 0 if there are none.
    pub fn get_min_column_index(&self) -> (ret: usize)
        ensures
            forall|v: Variable| #[trigger] terms_have(self@, v) ==> ret <= v.column_index,
            (exists|v: Variable| #[trigger] terms_have(self@, v) && v.column_index == ret) || (ret
                == 0 && forall|v: Variable| !#[trigger] terms_have(self@, v)),
    {
        let ghost t = self@;
        let variables = self.get_free_variables();
        if variables.len() == 0 {
            proof {
                assert forall|v: Variable| !#[trigger] terms_have(t, v) by {
                    assert(!variables@.contains(v));
                }
            }
            return 0;
        }
        proof {
            assert(variables@.contains(variables@[0]));
            assert(terms_have(t, variables@[0]));
            assert forall|v: Variable| #[trigger] terms_have(t, v) implies variables@[0].column_index
                <= v.column_index by {
                assert(variables@.contains(v));
                let k = choose|k: int| 0 <= k < variables@.len() && variables@[k] == v;
                if k > 0 {
                    assert(var_less(variables@[0], variables@[k]));
                }
            }
        }
        variables[0].column_index()
    }

    /// Adds an offset to the column indices of all variables.
    pub fn remap_variables(&self, column_offset: isize) -> (ret: Self)
        requires
            shiftable(self@, column_offset as int),
        ensures
            ret@ == shift_terms(self@, column_offset as int),
    {
        let ghost p = F::modulus();
        let ghost t = self@;
        let ghost offset = column_offset as int;
        let mut terms: Vec<Term<F>> = Vec::new();
        let mut i: usize = 0;
        proof {
            use_type_invariant(self);
        }
        while i < self.terms.len()
            invariant
                i <= self.terms.len(),
                t == terms_of(self.terms@),
                offset == column_offset,
                shiftable(t, offset),
                terms@.len() == i,
                forall|k: int|
                    0 <= k < i ==> (#[trigger] terms_of(terms@)[k]) == (
                        shift_mono(t[k].0, offset),
                        t[k].1,
                    ),
            decreases self.terms.len() - i,
        {
            let ghost before = terms_of(terms@);
            let source = &self.terms[i].factors;
            let ghost m = mono_of(source@);
            let mut factors: Factors = Vec::new();
            let mut j: usize = 0;
            while j < source.len()
                invariant
                    i < self.terms.len(),
                    j <= source.len(),
                    t == terms_of(self.terms@),
                    source == &self.terms@[i as int].factors,
                    m == mono_of(source@),
                    offset == column_offset,
                    shiftable(t, offset),
                    factors@.len() == j,
                    forall|k: int|
                        0 <= k < j ==> (#[trigger] mono_of(factors@)[k]) == (
                            shift_variable(m[k].0, offset),
                            m[k].1,
                        ),
                decreases source.len() - j,
            {
                let ghost sofar = mono_of(factors@);
                proof {
                    assert(t[i as int].0 == m);
                    assert(t[i as int].0[j as int].0 == source@[j as int].0);
                    assert(mono_has(t[i as int].0, source@[j as int].0));
                    assert(terms_have(t, source@[j as int].0));
                }
                factors.push((source[j].0.remap(column_offset), source[j].1));
                proof {
                    assert forall|k: int| 0 <= k < j + 1 implies (#[trigger] mono_of(factors@)[k])
                        == (shift_variable(m[k].0, offset), m[k].1) by {
                        if k < j {
                            assert(mono_of(factors@)[k] == sofar[k]);
                        }
                    }
                }
                j += 1;
            }
            proof {
                assert(mono_of(factors@) =~= shift_mono(m, offset));
            }
            terms.push(Term { factors, coefficient: self.terms[i].coefficient });
            proof {
                assert forall|k: int| 0 <= k < i + 1 implies (#[trigger] terms_of(terms@)[k]) == (
                    shift_mono(t[k].0, offset),
                    t[k].1,
                ) by {
                    if k < i {
                        assert(terms_of(terms@)[k] == before[k]);
                    }
                }
            }
            i += 1;
        }
        proof {
            assert(terms_of(terms@) =~= shift_terms(t, offset));
            lemma_shift_terms_wf(t, offset, p);
        }
        Constraint { terms }
    }

    /// Indicates whether this constraint expression can be raised to the given power.
    ///
    /// Any expression can be raised to a non-negative power (sums use a square-and-multiply
    /// algorithm), but negative powers are only supported when the expression is a single monomial:
    /// neither a sum nor zero.
    pub fn can_raise_to(&self, exponent: isize) -> (ret: bool)
        ensures
            ret == (exponent >= 0 || self@.len() == 1),
    {
        exponent >= 0 || self.terms.len() == 1
    }

    /// Returns the variables referenced by this constraint expression, in order.
    pub fn get_free_variables(&self) -> (ret: Vec<Variable>)
        ensures
            variables_sorted(ret@),
            forall|v: Variable| #[trigger] ret@.contains(v) <==> terms_have(self@, v),
            forall|i: int, j: int|
                0 <= i < j < ret@.len() ==> (#[trigger] ret@[i]).column_index < (
                #[trigger] ret@[j]).column_index || (ret@[i].column_index == ret@[j].column_index
                    && ret@[i].rotation < ret@[j].rotation),
    {
        let ghost t = self@;
        let mut set: Vec<Variable> = Vec::new();
        let mut i: usize = 0;
        while i < self.terms.len()
            invariant
                i <= self.terms.len(),
                t == terms_of(self.terms@),
                variables_sorted(set@),
                forall|v: Variable| #[trigger]
                    set@.contains(v) <==> exists|k: int|
                        0 <= k < i && mono_has((#[trigger] t[k]).0, v),
            decreases self.terms.len() - i,
        {
            let ghost before = set@;
            let source = &self.terms[i].factors;
            let ghost m = t[i as int].0;
            let mut j: usize = 0;
            while j < source.len()
                invariant
                    i < self.terms.len(),
                    j <= source.len(),
                    t == terms_of(self.terms@),
                    source == &self.terms@[i as int].factors,
                    m == mono_of(source@),
                    variables_sorted(set@),
                    forall|v: Variable| #[trigger]
                        set@.contains(v) <==> (before.contains(v) || exists|k: int|
                            0 <= k < j && (#[trigger] m[k]).0 == v),
                decreases source.len() - j,
            {
                let ghost sofar = set@;
                insert_variable(&mut set, source[j].0);
                proof {
                    assert(m[j as int].0 == source@[j as int].0);
                    assert forall|v: Variable| #[trigger]
                        set@.contains(v) <==> (before.contains(v) || exists|k: int|
                            0 <= k < j + 1 && (#[trigger] m[k]).0 == v) by {
                        assert(set@.contains(v) <==> (sofar.contains(v) || v == m[j as int].0));
                        if exists|k: int| 0 <= k < j + 1 && (#[trigger] m[k]).0 == v {
                            let k = choose|k: int| 0 <= k < j + 1 && (#[trigger] m[k]).0 == v;
                            if k < j {
                                assert(sofar.contains(v));
                            }
                        }
                    }
                }
                j += 1;
            }
            proof {
                assert forall|v: Variable| #[trigger]
                    set@.contains(v) <==> exists|k: int|
                        0 <= k < i + 1 && mono_has((#[trigger] t[k]).0, v) by {
                    assert(set@.contains(v) <==> (before.contains(v) || mono_has(m, v)));
                    if exists|k: int| 0 <= k < i + 1 && mono_has((#[trigger] t[k]).0, v) {
                        let k = choose|k: int| 0 <= k < i + 1 && mono_has((#[trigger] t[k]).0, v);
                        if k < i {
                            assert(before.contains(v));
                        }
                    }
                    if before.contains(v) {
                        let k = choose|k: int| 0 <= k < i && mono_has((#[trigger] t[k]).0, v);
                        assert(mono_has(t[k].0, v));
                    }
                    if mono_has(m, v) {
                        assert(mono_has(t[i as int].0, v));
                    }
                }
            }
            i += 1;
        }
        set
    }

    /// Indicates whether this constraint expression is constant, which happens when the
    /// [free variable set](`Self::get_free_variables`) is empty.
    ///
    /// Since `Constraint` instances are expressions that are implicitly equalled to 0, it follows
    /// that a non-zero constant `Constraint` is invalid because it will always fail in all
    /// circuits, regardless of the witness values. For example, `42 == 0` will always block
    /// proving. Because of that, constant-testing is not very useful as a public API. It's mostly
    /// used internally by the expression parser and doesn't have many other use cases.
    pub fn is_constant(&self) -> (ret: bool)
        ensures
            ret <==> exists|c: int| self@ == #[trigger] const_terms(c),
    {
        self.get_constant_value().is_some()
    }

    /// If this constraint expression [is constant](`Self::is_constant`) this function returns its
    /// constant value, otherwise it returns `None`.
    pub fn get_constant_value(&self) -> (ret: Option<F>)
        ensures
            ret is Some ==> self@ == const_terms((ret->Some_0).value()),
            ret is None ==> forall|c: int| self@ != #[trigger] const_terms(c),
    {
        let ghost t = self@;
        proof {
            use_type_invariant(self);
        }
        if self.terms.len() == 0 {
            proof {
                assert(t =~= const_terms(0));
            }
            return Some(zero::<F>());
        }
        if self.terms.len() == 1 && self.terms[0].factors.len() == 0 {
            proof {
                assert(t[0].0 =~= Seq::<(Variable, int)>::empty());
                assert(t =~= const_terms(t[0].1));
            }
            return Some(self.terms[0].coefficient);
        }
        proof {
            assert forall|c: int| t != #[trigger] const_terms(c) by {
                if t.len() == 1 {
                    assert(t[0].0.len() == self.terms@[0].factors@.len());
                }
            }
        }
        None
    }

    /// If this constraint is a single monomial with a single [`Variable`], this function returns
    /// that variable; otherwise it returns `None`. The monomial must have unit coefficient and the
    /// variable must have unit exponent, otherwise `None` is also returned.
    pub fn get_variable(&self) -> (ret: Option<Variable>)
        ensures
            ret is Some ==> self@ == var_terms(ret->Some_0),
            ret is None ==> forall|v: Variable| self@ != #[trigger] var_terms(v),
    {
        let ghost t = self@;
        if self.terms.len() == 1 && self.terms[0].factors.len() == 1 && self.terms[0].factors[0].1
            == 1 && equal(self.terms[0].coefficient, one::<F>()) {
            let variable = self.terms[0].factors[0].0;
            proof {
                assert(t[0].0 =~= seq![(variable, 1int)]);
                assert(t =~= var_terms(variable));
            }
            return Some(variable);
        }
        proof {
            assert forall|v: Variable| t != #[trigger] var_terms(v) by {
                if t == var_terms(v) {
                    assert(t.len() == 1);
                    assert(var_terms(v)[0] == (seq![(v, 1int)], 1int));
                    assert(t[0].0.len() == 1);
                    assert(t[0].0[0] == (v, 1int));
                    assert(t[0].0[0].1 == self.terms@[0].factors@[0].1);
                }
            }
        }
        None
    }

    /// Returns the first variable with negative exponent, or `None` if there isn't one.
    pub fn get_next_inverted_variable(&self) -> (ret: Option<(Variable, isize)>)
        ensures
            ret is None <==> canonical(self@),
            ret matches Some(f) ==> f.1 < 0 && exists|i: int, j: int|
                0 <= i < self@.len() && 0 <= j < self@[i].0.len() && #[trigger] self@[i].0[j] == (
                    f.0,
                    f.1 as int,
                ) && canonical(self@.subrange(0, i)) && (forall|k: int|
                    0 <= k < j ==> (#[trigger] self@[i].0[k]).1 >= 0),
    {
        let ghost t = self@;
        let mut i: usize = 0;
        while i < self.terms.len()
            invariant
                i <= self.terms.len(),
                t == self@,
                t == terms_of(self.terms@),
                canonical(t.subrange(0, i as int)),
            decreases self.terms.len() - i,
        {
            let source = &self.terms[i].factors;
            let mut j: usize = 0;
            while j < source.len()
                invariant
                    i < self.terms.len(),
                    j <= source.len(),
                    t == self@,
                    t == terms_of(self.terms@),
                    canonical(t.subrange(0, i as int)),
                    source == &self.terms@[i as int].factors,
                    forall|k: int| 0 <= k < j ==> (#[trigger] t[i as int].0[k]).1 >= 0,
                decreases source.len() - j,
            {
                proof {
                    assert(t[i as int].0[j as int] == (
                        source@[j as int].0,
                        source@[j as int].1 as int,
                    ));
                }
                if source[j].1 < 0 {
                    return Some(source[j]);
                }
                j += 1;
            }
            proof {
                let s = t.subrange(0, i + 1);
                assert forall|x: int, y: int|
                    0 <= x < s.len() && 0 <= y < s[x].0.len() implies (#[trigger] s[x].0[y]).1
                    >= 0 by {
                    if x < i {
                        assert(s[x] == t.subrange(0, i as int)[x]);
                    } else {
                        assert(s[x] == t[i as int]);
                    }
                }
            }
            i += 1;
        }
        proof {
            assert(t.subrange(0, t.len() as int) =~= t);
        }
        None
    }

    /// Indicates whether this constraint is in canonical form as per [`Self::canonicalize`].
    ///
    /// Returns true iff all variables have positive exponents, false if there are negative
    /// exponents.
    pub fn is_canonical(&self) -> (ret: bool)
        ensures
            ret == canonical(self@),
    {
        self.get_next_inverted_variable().is_none()
    }

    /// Calculates the degree of the constraint, which must be in
    /// [canonical form](`Self::canonicalize`).
    pub fn get_degree(&self) -> (ret: usize)
        requires
            canonical(self@),
            terms_degree(self@) <= usize::MAX,
        ensures
            ret == terms_degree(self@),
    {
        let ghost t = self@;
        let mut degree: usize = 0;
        let mut i: usize = 0;
        proof {
            assert(t.subrange(0, 0) =~= seq![]);
        }
        while i < self.terms.len()
            invariant
                i <= self.terms.len(),
                t == terms_of(self.terms@),
                canonical(t),
                terms_degree(t) <= usize::MAX,
                degree == terms_degree(t.subrange(0, i as int)),
            decreases self.terms.len() - i,
        {
            let source = &self.terms[i].factors;
            let ghost m = t[i as int].0;
            let mut total: usize = 0;
            let mut j: usize = 0;
            proof {
                lemma_degree_member(t, i as int);
                assert(m.subrange(0, 0) =~= seq![]);
            }
            while j < source.len()
                invariant
                    i < self.terms.len(),
                    j <= source.len(),
                    t == terms_of(self.terms@),
                    source == &self.terms@[i as int].factors,
                    canonical(t),
                    m == t[i as int].0,
                    m == mono_of(source@),
                    mono_degree(m) <= usize::MAX,
                    total == mono_degree(m.subrange(0, j as int)),
                decreases source.len() - j,
            {
                proof {
                    let s = m.subrange(0, j + 1);
                    assert(s.drop_last() =~= m.subrange(0, j as int));
                    assert(s.last() == m[j as int]);
                    assert(t[i as int].0[j as int].1 >= 0);
                    assert forall|k: int| 0 <= k < m.len() implies (#[trigger] m[k]).1 >= 0 by {
                        assert(t[i as int].0[k].1 >= 0);
                    }
                    lemma_degree_prefix(m, j + 1);
                }
                total = total + source[j].1 as usize;
                j += 1;
            }
            proof {
                assert(m.subrange(0, m.len() as int) =~= m);
                let s = t.subrange(0, i + 1);
                assert(s.drop_last() =~= t.subrange(0, i as int));
                assert(s.last() == t[i as int]);
            }
            if degree < total {
                degree = total;
            }
            i += 1;
        }
        proof {
            assert(t.subrange(0, t.len() as int) =~= t);
        }
        degree
    }

    /// Evaluates the constraint using the provided variable substitution.
    ///
    /// The `substitution` map associates a value to each variable. No variable may be missing from
    /// it, and variables with a negative exponent must not be zero.
    ///
    /// NOTE: this algorithm is intentionally not constant-time because all constraint shapes are
    /// publicly known, so our timing doesn't reveal anything sensitive. Besides, this function is
    /// used by the verifier code, where we don't have anything to leak and we want to maximize
    /// performance.
    pub fn evaluate(&self, substitution: &Assignment<F>) -> (ret: F)
        requires
            assignment_fits(self@, substitution@),
        ensures
            ret.value() == terms_value(self@, valuation(substitution@), F::modulus())
                % F::modulus(),
    {
        let ghost t = self@;
        let ghost p = F::modulus();
        let ghost s = valuation(substitution@);
        let ghost w = |m: Mono| mono_value(m, s, p);
        let mut result = zero::<F>();
        let mut i: usize = 0;
        proof {
            F::lemma_modulus();
            lemma_small(0, p);
            lemma_small(1, p);
            assert(t.subrange(0, 0) =~= seq![]);
        }
        while i < self.terms.len()
            invariant
                i <= self.terms.len(),
                t == self@,
                t == terms_of(self.terms@),
                p == F::modulus(),
                p > 1,
                s == valuation(substitution@),
                w == |m: Mono| mono_value(m, s, p),
                forall|v: Variable| #[trigger]
                    terms_have(self@, v) ==> substitution@.contains_key(v),
                forall|i: int, j: int|
                    0 <= i < self@.len() && 0 <= j < self@[i].0.len() && (
                    #[trigger] self@[i].0[j]).1 < 0 ==> substitution@[self@[i].0[j].0].value() != 0,
                result.value() == weighted_sum(t.subrange(0, i as int), w) % p,
            decreases self.terms.len() - i,
        {
            let source = &self.terms[i].factors;
            let ghost m = t[i as int].0;
            let coefficient = self.terms[i].coefficient;
            let ghost c = t[i as int].1;
            let mut product = coefficient;
            let mut j: usize = 0;
            proof {
                assert(m.subrange(0, 0) =~= seq![]);
                assert(c * 1 == c);
                coefficient.lemma_value_bounds();
                lemma_small(coefficient.value(), p);
            }
            while j < source.len()
                invariant
                    i < self.terms.len(),
                    j <= source.len(),
                    t == self@,
                    t == terms_of(self.terms@),
                    p == F::modulus(),
                    p > 1,
                    s == valuation(substitution@),
                    source == &self.terms@[i as int].factors,
                    m == t[i as int].0,
                    c == t[i as int].1,
                    forall|v: Variable| #[trigger]
                        terms_have(self@, v) ==> substitution@.contains_key(v),
                    forall|i: int, j: int|
                        0 <= i < self@.len() && 0 <= j < self@[i].0.len() && (
                        #[trigger] self@[i].0[j]).1 < 0 ==> substitution@[self@[i].0[j].0].value()
                            != 0,
                    product.value() == (c * mono_value(m.subrange(0, j as int), s, p)) % p,
                decreases source.len() - j,
            {
                let variable = source[j].0;
                let exponent: isize = source[j].1;
                proof {
                    assert(t[i as int].0[j as int] == (variable, exponent as int));
                    assert(mono_has(t[i as int].0, variable));
                    assert(terms_have(self@, variable));
                }
                match substitution.get(variable) {
                    Some(value) => {
                        let value: F = *value;
                        let base = if exponent < 0 {
                            match value.invert() {
                                Some(inverse) => {
                                    proof {
                                        lemma_inverse_unique(value.value(), inverse.value(), p);
                                    }
                                    inverse
                                },
                                None => value,
                            }
                        } else {
                            value
                        };
                        let power = base.pow(magnitude(exponent));
                        let ghost before = product.value();
                        product = product.times(power);
                        proof {
                            let prefix = m.subrange(0, j + 1);
                            assert(prefix.drop_last() =~= m.subrange(0, j as int));
                            assert(prefix.last() == (variable, exponent as int));
                            assert(s(variable) == value.value());
                            assert(power.value() == mod_pow(s(variable), exponent as int, p));
                            let u = mono_value(m.subrange(0, j as int), s, p);
                            lemma_mod_mul(c * u, power.value(), p);
                            assert((c * u) * power.value() == c * (u * power.value()))
                                by (nonlinear_arith);
                        }
                    },
                    None => {},
                }
                j += 1;
            }
            proof {
                assert(m.subrange(0, m.len() as int) =~= m);
                let prefix = t.subrange(0, i + 1);
                assert(prefix.drop_last() =~= t.subrange(0, i as int));
                assert(prefix.last() == t[i as int]);
                lemma_mod_add(
                    weighted_sum(t.subrange(0, i as int), w),
                    c * mono_value(m, s, p),
                    p,
                );
            }
            result = result.plus(product);
            i += 1;
        }
        proof {
            assert(t.subrange(0, t.len() as int) =~= t);
        }
        result
    }
}

/// Inserts a variable into an ordered list unless it is already there.
fn insert_variable(set: &mut Vec<Variable>, variable: Variable)
    requires
        variables_sorted(old(set)@),
    ensures
        variables_sorted(final(set)@),
        forall|v: Variable| #[trigger]
            final(set)@.contains(v) <==> (old(set)@.contains(v) || v == variable),
{
    let ghost s = set@;
    let mut i: usize = 0;
    while i < set.len() && variable_less(set[i], variable)
        invariant
            i <= set.len(),
            set@ == s,
            variables_sorted(s),
            forall|j: int| 0 <= j < i ==> var_less(#[trigger] s[j], variable),
        decreases set.len() - i,
    {
        i += 1;
    }
    if i < set.len() && set[i] == variable {
        proof {
            assert(s.contains(variable)) by {
                assert(s[i as int] == variable);
            }
        }
        return;
    }
    set.insert(i, variable);
    proof {
        let r = set@;
        assert forall|j: int, k: int| 0 <= j < k < r.len() implies var_less(
            #[trigger] r[j],
            #[trigger] r[k],
        ) by {
            let sj = if j < i {
                s[j]
            } else if j == i {
                variable
            } else {
                s[j - 1]
            };
            let sk = if k < i {
                s[k]
            } else if k == i {
                variable
            } else {
                s[k - 1]
            };
            assert(r[j] == sj && r[k] == sk);
            if j == i {
                assert(!var_less(s[i as int], variable));
                if k - 1 > i {
                    assert(var_less(s[i as int], s[k - 1]));
                }
            }
        }
        assert forall|v: Variable| #[trigger] r.contains(v) <==> (s.contains(v) || v == variable) by {
            if r.contains(v) {
                let k = choose|k: int| 0 <= k < r.len() && r[k] == v;
                if k < i {
                    assert(s[k] == v);
                } else if k > i {
                    assert(s[k - 1] == v);
                }
            }
            if s.contains(v) {
                let k = choose|k: int| 0 <= k < s.len() && s[k] == v;
                if k < i {
                    assert(r[k] == v);
                } else {
                    assert(r[k + 1] == v);
                }
            }
            if v == variable {
                assert(r[i as int] == v);
            }
        }
    }
}

/// Shifting keeps the order of monomials.
proof fn lemma_shift_mono_less(a: Mono, b: Mono, offset: int)
    requires
        forall|i: int| 0 <= i < a.len() ==> 0 <= (#[trigger] a[i]).0.column_index + offset <= usize::MAX,
        forall|i: int| 0 <= i < b.len() ==> 0 <= (#[trigger] b[i]).0.column_index + offset <= usize::MAX,
    ensures
        mono_less(shift_mono(a, offset), shift_mono(b, offset)) == mono_less(a, b),
    decreases a.len(),
{
    if a.len() > 0 && b.len() > 0 {
        let x = shift_mono(a, offset);
        let y = shift_mono(b, offset);
        assert(x[0] == (shift_variable(a[0].0, offset), a[0].1));
        assert(y[0] == (shift_variable(b[0].0, offset), b[0].1));
        assert(0 <= a[0].0.column_index + offset <= usize::MAX);
        assert(0 <= b[0].0.column_index + offset <= usize::MAX);
        assert(x[0] == y[0] <==> a[0] == b[0]);
        if a[0] == b[0] {
            assert forall|i: int| 0 <= i < a.drop_first().len() implies 0 <= (
            #[trigger] a.drop_first()[i]).0.column_index + offset <= usize::MAX by {
                assert(a.drop_first()[i] == a[i + 1]);
            }
            assert forall|i: int| 0 <= i < b.drop_first().len() implies 0 <= (
            #[trigger] b.drop_first()[i]).0.column_index + offset <= usize::MAX by {
                assert(b.drop_first()[i] == b[i + 1]);
            }
            lemma_shift_mono_less(a.drop_first(), b.drop_first(), offset);
            assert(x.drop_first() =~= shift_mono(a.drop_first(), offset));
            assert(y.drop_first() =~= shift_mono(b.drop_first(), offset));
        }
    }
}

/// The columns of a shiftable sum's monomials are still columns when shifted.
pub proof fn lemma_shiftable_at(t: Terms, i: int, offset: int)
    requires
        shiftable(t, offset),
        0 <= i < t.len(),
    ensures
        forall|j: int|
            0 <= j < t[i].0.len() ==> 0 <= (#[trigger] t[i].0[j]).0.column_index + offset
                <= isize::MAX && t[i].0[j].0.column_index <= isize::MAX,
{
    assert forall|j: int| 0 <= j < t[i].0.len() implies 0 <= (#[trigger] t[i].0[j]).0.column_index
        + offset <= isize::MAX && t[i].0[j].0.column_index <= isize::MAX by {
        let v = t[i].0[j].0;
        assert(mono_has(t[i].0, v));
        assert(terms_have(t, v));
    }
}

/// Shifting keeps normal forms.
pub proof fn lemma_shift_terms_wf(t: Terms, offset: int, p: int)
    requires
        terms_wf(t, p),
        shiftable(t, offset),
    ensures
        terms_wf(shift_terms(t, offset), p),
{
    let r = shift_terms(t, offset);
    assert forall|i: int, j: int| 0 <= i < j < r.len() implies mono_less(
        (#[trigger] r[i]).0,
        (#[trigger] r[j]).0,
    ) by {
        lemma_shiftable_at(t, i, offset);
        lemma_shiftable_at(t, j, offset);
        lemma_shift_mono_less(t[i].0, t[j].0, offset);
        assert(mono_less(t[i].0, t[j].0));
    }
    assert forall|i: int| 0 <= i < r.len() implies mono_wf((#[trigger] r[i]).0) && 0 < r[i].1
        < p by {
        lemma_shiftable_at(t, i, offset);
        let m = t[i].0;
        let q = r[i].0;
        assert(mono_wf(m));
        assert forall|x: int, y: int| 0 <= x < y < q.len() implies var_less(
            (#[trigger] q[x]).0,
            (#[trigger] q[y]).0,
        ) by {
            assert(var_less(m[x].0, m[y].0));
        }
        assert forall|x: int| 0 <= x < q.len() implies (#[trigger] q[x]).1 != 0 by {
            assert(m[x].1 != 0);
        }
    }
}

/// The degree is at least that of every monomial.
pub proof fn lemma_degree_member(t: Terms, i: int)
    requires
        0 <= i < t.len(),
    ensures
        mono_degree(t[i].0) <= terms_degree(t),
    decreases t.len(),
{
    if i < t.len() - 1 {
        assert(t.drop_last()[i] == t[i]);
        lemma_degree_member(t.drop_last(), i);
    }
}

/// Prefixes have no higher degree if no exponent is negative.
pub proof fn lemma_degree_prefix(m: Mono, k: int)
    requires
        0 <= k <= m.len(),
        forall|j: int| 0 <= j < m.len() ==> (#[trigger] m[j]).1 >= 0,
    ensures
        0 <= mono_degree(m.subrange(0, k)) <= mono_degree(m),
    decreases m.len(),
{
    if k < m.len() {
        let init = m.drop_last();
        assert forall|j: int| 0 <= j < init.len() implies (#[trigger] init[j]).1 >= 0 by {
            assert(init[j] == m[j]);
        }
        assert(m.last() == m[m.len() - 1]);
        lemma_degree_prefix(init, k);
        assert(init.subrange(0, k) =~= m.subrange(0, k));
    } else {
        assert(m.subrange(0, k) =~= m);
        if m.len() > 0 {
            let init = m.drop_last();
            assert forall|j: int| 0 <= j < init.len() implies (#[trigger] init[j]).1 >= 0 by {
                assert(init[j] == m[j]);
            }
            assert(m.last() == m[m.len() - 1]);
            lemma_degree_prefix(init, k - 1);
            assert(init.subrange(0, k - 1) =~= init);
        }
    }
}

/// Clearing the denominators of `t` keeps the exponents in the range of [`isize`].
pub open spec fn clearing_fits(t: Terms) -> bool {
    &&& forall|v: Variable| fits_isize(#[trigger] clearing(t, v))
    &&& forall|i: int, v: Variable|
        0 <= i < t.len() ==> fits_isize(#[trigger] exponent(t[i].0, v) + clearing(t, v))
}

/// Raises the exponent of a variable to at least the given value.
fn raise_exponent(factors: &mut Factors, variable: Variable, exp: isize)
    requires
        mono_wf(mono_of(old(factors)@)),
        forall|i: int| 0 <= i < old(factors)@.len() ==> (#[trigger] old(factors)@[i]).1 > 0,
        exp > 0,
    ensures
        mono_wf(mono_of(final(factors)@)),
        forall|i: int| 0 <= i < final(factors)@.len() ==> (#[trigger] final(factors)@[i]).1 > 0,
        forall|v: Variable| #[trigger]
            exponent(mono_of(final(factors)@), v) == if v == variable && exponent(
                mono_of(old(factors)@),
                v,
            ) < exp {
                exp as int
            } else {
                exponent(mono_of(old(factors)@), v)
            },
{
    let ghost s = factors@;
    let ghost m = mono_of(s);
    let mut i: usize = 0;
    while i < factors.len() && variable_less(factors[i].0, variable)
        invariant
            i <= factors.len(),
            factors@ == s,
            m == mono_of(s),
            mono_wf(m),
            forall|j: int| 0 <= j < i ==> var_less((#[trigger] m[j]).0, variable),
        decreases factors.len() - i,
    {
        assert(m[i as int].0 == s[i as int].0);
        i += 1;
    }
    let ghost before = m.subrange(0, i as int);
    let ghost x = (variable, exp as int);
    if i < factors.len() && factors[i].0 == variable {
        proof {
            assert(m[i as int] == (s[i as int].0, s[i as int].1 as int));
            lemma_exponent_at(m, i as int);
        }
        if factors[i].1 < exp {
            factors[i] = (variable, exp);
            proof {
                let r = mono_of(factors@);
                assert(r =~= m.update(i as int, x));
                assert forall|j: int, k: int| 0 <= j < k < r.len() implies var_less(
                    (#[trigger] r[j]).0,
                    (#[trigger] r[k]).0,
                ) by {
                    assert(var_less(m[j].0, m[k].0));
                }
                assert forall|j: int| 0 <= j < r.len() implies (#[trigger] r[j]).1 != 0 by {
                    assert(m[j].1 != 0);
                }
                assert forall|v: Variable| #[trigger]
                    exponent(r, v) == if v == variable && exponent(m, v) < exp {
                        exp as int
                    } else {
                        exponent(m, v)
                    } by {
                    let after = m.subrange(i + 1, m.len() as int);
                    assert(m =~= (before + seq![m[i as int]]) + after);
                    assert(r =~= (before + seq![x]) + after);
                    lemma_exponent_concat(before + seq![m[i as int]], after, v);
                    lemma_exponent_concat(before, seq![m[i as int]], v);
                    lemma_exponent_single(m[i as int], v);
                    lemma_exponent_concat(before + seq![x], after, v);
                    lemma_exponent_concat(before, seq![x], v);
                    lemma_exponent_single(x, v);
                }
            }
        }
        return;
    }
    factors.insert(i, (variable, exp));
    proof {
        let r = mono_of(factors@);
        let after = m.subrange(i as int, m.len() as int);
        assert(r =~= m.insert(i as int, x));
        assert(m =~= before + after);
        assert(r =~= (before + seq![x]) + after);
        assert forall|j: int| i <= j < m.len() implies var_less(variable, (#[trigger] m[j]).0) by {
            assert(m[i as int].0 == s[i as int].0);
            if j > i {
                assert(var_less(m[i as int].0, m[j].0));
            }
        }
        assert forall|j: int, k: int| 0 <= j < k < r.len() implies var_less(
            (#[trigger] r[j]).0,
            (#[trigger] r[k]).0,
        ) by {
            assert(r[j] == if j < i {
                m[j]
            } else if j == i {
                x
            } else {
                m[j - 1]
            });
            assert(r[k] == if k < i {
                m[k]
            } else if k == i {
                x
            } else {
                m[k - 1]
            });
        }
        assert forall|j: int| 0 <= j < r.len() implies (#[trigger] r[j]).1 != 0 by {
            if j < i {
                assert(r[j] == m[j]);
            } else if j > i {
                assert(r[j] == m[j - 1]);
            }
        }
        assert forall|j: int| 0 <= j < factors@.len() implies (#[trigger] factors@[j]).1 > 0 by {
            if j < i {
                assert(factors@[j] == s[j]);
            } else if j > i {
                assert(factors@[j] == s[j - 1]);
            }
        }
        assert(!mono_has(m, variable));
        lemma_exponent_absent(m, variable);
        assert forall|v: Variable| #[trigger]
            exponent(r, v) == if v == variable && exponent(m, v) < exp {
                exp as int
            } else {
                exponent(m, v)
            } by {
            lemma_exponent_concat(before, after, v);
            lemma_exponent_concat(before + seq![x], after, v);
            lemma_exponent_concat(before, seq![x], v);
            lemma_exponent_single(x, v);
        }
    }
}

/// Products with a monomial that clears denominators have no negative exponents.
proof fn lemma_cleared(m: Mono, k: Mono, t: Terms, i: int)
    requires
        is_clearing(k, t),
        0 <= i < t.len(),
        m == t[i].0,
        mono_wf(m),
    ensures
        forall|j: int| 0 <= j < mono_mul(m, k).len() ==> (#[trigger] mono_mul(m, k)[j]).1 >= 0,
        clearing_fits(t) ==> exponents_fit(mono_mul(m, k)),
{
    let r = mono_mul(m, k);
    lemma_mono_mul_wf(m, k);
    assert forall|j: int| 0 <= j < r.len() implies (#[trigger] r[j]).1 >= 0 && (clearing_fits(t)
        ==> fits_isize(r[j].1)) by {
        let v = r[j].0;
        lemma_exponent_at(r, j);
        lemma_mono_mul_exponent(m, k, v);
        lemma_clearing_member(t, i, v);
        assert(exponent(k, v) == clearing(t, v));
        if clearing_fits(t) {
            assert(fits_isize(exponent(t[i].0, v) + clearing(t, v)));
        }
    }
}

impl<F: Field> Constraint<F> {
    /// Returns the smallest monomial that makes all exponents non-negative when multiplied with.
    pub fn get_clearing(&self) -> (ret: Factors)
        requires
            forall|v: Variable| fits_isize(#[trigger] clearing(self@, v)),
        ensures
            is_clearing(mono_of(ret@), self@),
    {
        let ghost t = self@;
        let mut ret: Factors = Vec::new();
        let mut i: usize = 0;
        proof {
            use_type_invariant(self);
            assert(mono_of(ret@) =~= seq![]);
            assert(t.subrange(0, 0) =~= seq![]);
        }
        while i < self.terms.len()
            invariant
                i <= self.terms.len(),
                t == terms_of(self.terms@),
                forall|v: Variable| fits_isize(#[trigger] clearing(t, v)),
                terms_wf(t, F::modulus()),
                forall|k: int| 0 <= k < ret@.len() ==> (#[trigger] ret@[k]).1 > 0,
                is_clearing(mono_of(ret@), t.subrange(0, i as int)),
            decreases self.terms.len() - i,
        {
            let source = &self.terms[i].factors;
            let ghost m = t[i as int].0;
            let ghost before = mono_of(ret@);
            let ghost prefix = t.subrange(0, i as int);
            let mut j: usize = 0;
            proof {
                assert(m.subrange(0, 0) =~= seq![]);
                assert forall|v: Variable| #[trigger] exponent(before, v) >= 0 by {
                    lemma_clearing_nonnegative(prefix, v);
                }
            }
            while j < source.len()
                invariant
                    i < self.terms.len(),
                    j <= source.len(),
                    t == terms_of(self.terms@),
                    source == &self.terms@[i as int].factors,
                    m == t[i as int].0,
                    m == mono_of(source@),
                    mono_wf(m),
                    forall|v: Variable| fits_isize(#[trigger] clearing(t, v)),
                    mono_wf(mono_of(ret@)),
                    forall|k: int| 0 <= k < ret@.len() ==> (#[trigger] ret@[k]).1 > 0,
                    forall|v: Variable| #[trigger] exponent(before, v) >= 0,
                    forall|v: Variable| #[trigger]
                        exponent(mono_of(ret@), v) == if exponent(before, v) < -exponent(
                            m.subrange(0, j as int),
                            v,
                        ) {
                            -exponent(m.subrange(0, j as int), v)
                        } else {
                            exponent(before, v)
                        },
                decreases source.len() - j,
            {
                let ghost sofar = mono_of(ret@);
                let ghost f = m[j as int];
                proof {
                    assert(f == (source@[j as int].0, source@[j as int].1 as int));
                    lemma_exponent_at(m, j as int);
                    lemma_clearing_member(t, i as int, f.0);
                    assert(fits_isize(clearing(t, f.0)));
                    assert forall|v: Variable| #[trigger]
                        exponent(m.subrange(0, j + 1), v) == if v == f.0 {
                            f.1
                        } else {
                            exponent(m.subrange(0, j as int), v)
                        } by {
                        assert(m.subrange(0, j + 1) =~= m.subrange(0, j as int) + seq![f]);
                        lemma_exponent_concat(m.subrange(0, j as int), seq![f], v);
                        lemma_exponent_single(f, v);
                        if v == f.0 {
                            assert forall|k: int| 0 <= k < j implies (
                            #[trigger] m.subrange(0, j as int)[k]).0 != v by {
                                assert(var_less(m[k].0, m[j as int].0));
                            }
                            lemma_exponent_absent(m.subrange(0, j as int), v);
                        }
                    }
                    assert(exponent(m.subrange(0, j as int), f.0) == 0) by {
                        assert forall|k: int| 0 <= k < j implies (
                        #[trigger] m.subrange(0, j as int)[k]).0 != f.0 by {
                            assert(var_less(m[k].0, m[j as int].0));
                        }
                        lemma_exponent_absent(m.subrange(0, j as int), f.0);
                    }
                }
                if source[j].1 < 0 {
                    raise_exponent(&mut ret, source[j].0, -source[j].1);
                }
                proof {
                    assert forall|v: Variable| #[trigger]
                        exponent(mono_of(ret@), v) == if exponent(before, v) < -exponent(
                            m.subrange(0, j + 1),
                            v,
                        ) {
                            -exponent(m.subrange(0, j + 1), v)
                        } else {
                            exponent(before, v)
                        } by {
                        assert(exponent(m.subrange(0, j + 1), v) == if v == f.0 {
                            f.1
                        } else {
                            exponent(m.subrange(0, j as int), v)
                        });
                        assert(exponent(sofar, v) == if exponent(before, v) < -exponent(
                            m.subrange(0, j as int),
                            v,
                        ) {
                            -exponent(m.subrange(0, j as int), v)
                        } else {
                            exponent(before, v)
                        });
                        assert(exponent(before, v) >= 0);
                    }
                }
                j += 1;
            }
            proof {
                assert(m.subrange(0, m.len() as int) =~= m);
                let next = t.subrange(0, i + 1);
                assert(next.drop_last() =~= prefix);
                assert(next.last() == t[i as int]);
                assert forall|v: Variable| #[trigger]
                    exponent(mono_of(ret@), v) == clearing(next, v) by {
                    assert(exponent(before, v) == clearing(prefix, v));
                }
            }
            i += 1;
        }
        proof {
            assert(t.subrange(0, t.len() as int) =~= t);
        }
        ret
    }

    /// Converts the constraint to a form where all exponents are positive.
    ///
    /// For example, `x * y^-1 + y == 0` becomes `x + y^2 == 0`.
    ///
    /// This canonical form is suitable for use with [`Self::compose`], which doesn't work with
    /// negative exponents.
    ///
    /// WARNING: the canonical form is always more permissive than the original form because the
    /// latter disallows 0 for any variables with negative exponents. Make sure your circuit is not
    /// underconstrained because of that.
    pub fn canonicalize(&self) -> (ret: Self)
        requires
            clearing_fits(self@),
        ensures
            is_canonical_form(ret@, self@, F::modulus()),
    {
        let ghost t = self@;
        let ghost p = F::modulus();
        let factors = self.get_clearing();
        let ghost k = mono_of(factors@);
        let mut terms: Vec<Term<F>> = Vec::new();
        terms.push(Term { factors, coefficient: one::<F>() });
        proof {
            F::lemma_modulus();
            use_type_invariant(self);
            assert(terms_of(terms@) =~= seq![(k, 1int)]);
            assert forall|i: int, j: int|
                0 <= i < t.len() && 0 <= j < seq![(k, 1int)].len() implies exponents_fit(
                #[trigger] mono_mul(t[i].0, seq![(k, 1int)][j].0),
            ) by {
                lemma_cleared(t[i].0, k, t, i);
            }
        }
        let multiplier = Constraint { terms };
        let ret = self.times(&multiplier);
        proof {
            let goal = product_terms(t, seq![(k, 1int)]);
            assert forall|i: int, j: int|
                0 <= i < ret@.len() && 0 <= j < ret@[i].0.len() implies (#[trigger] ret@[i].0[j]).1
                >= 0 by {
                lemma_normal_form_member(ret@, goal, i, p);
                let x = choose|x: int| 0 <= x < goal.len() && (#[trigger] goal[x]).0 == ret@[i].0;
                lemma_product_member(t, seq![(k, 1int)], x);
                let (y, z) = choose|y: int, z: int|
                    0 <= y < t.len() && 0 <= z < seq![(k, 1int)].len() && goal[x].0
                        == #[trigger] mono_mul(t[y].0, seq![(k, 1int)][z].0);
                lemma_cleared(t[y].0, k, t, y);
            }
            assert forall|q: Mono| #[trigger] is_clearing(q, t) implies is_normal_form(
                ret@,
                product_terms(t, seq![(q, 1int)]),
                p,
            ) by {
                assert forall|v: Variable| exponent(q, v) == exponent(k, v) by {
                    assert(exponent(q, v) == clearing(t, v));
                    assert(exponent(k, v) == clearing(t, v));
                }
                lemma_mono_unique(q, k);
            }
        }
        ret
    }
}

/// Where clearing a variable comes from.
pub proof fn lemma_clearing_attained(t: Terms, v: Variable)
    ensures
        clearing(t, v) == 0 || exists|i: int|
            0 <= i < t.len() && clearing(t, v) == -#[trigger] exponent(t[i].0, v),
    decreases t.len(),
{
    if t.len() > 0 {
        let init = t.drop_last();
        lemma_clearing_attained(init, v);
        if clearing(init, v) < -exponent(t.last().0, v) {
            assert(clearing(t, v) == -exponent(t[t.len() - 1].0, v));
        } else if clearing(init, v) != 0 {
            let i = choose|i: int|
                0 <= i < init.len() && clearing(init, v) == -#[trigger] exponent(init[i].0, v);
            assert(init[i] == t[i]);
            assert(clearing(t, v) == -exponent(t[i].0, v));
        }
    }
}

/// The canonical form has no variables that the original form has not.
pub proof fn lemma_canonical_variables(r: Terms, t: Terms, k: Mono, v: Variable, p: int)
    requires
        p > 0,
        terms_wf(t, p),
        is_clearing(k, t),
        is_normal_form(r, product_terms(t, seq![(k, 1int)]), p),
        terms_have(r, v),
    ensures
        terms_have(t, v),
{
    let goal = product_terms(t, seq![(k, 1int)]);
    let i = choose|i: int| 0 <= i < r.len() && mono_has((#[trigger] r[i]).0, v);
    lemma_normal_form_member(r, goal, i, p);
    let x = choose|x: int| 0 <= x < goal.len() && (#[trigger] goal[x]).0 == r[i].0;
    lemma_product_member(t, seq![(k, 1int)], x);
    let (y, z) = choose|y: int, z: int|
        0 <= y < t.len() && 0 <= z < seq![(k, 1int)].len() && goal[x].0 == #[trigger] mono_mul(
            t[y].0,
            seq![(k, 1int)][z].0,
        );
    let m = t[y].0;
    let q = mono_mul(m, k);
    assert(q == r[i].0);
    let j = choose|j: int| 0 <= j < q.len() && (#[trigger] q[j]).0 == v;
    lemma_mono_mul_wf(m, k);
    lemma_exponent_at(q, j);
    lemma_mono_mul_exponent(m, k, v);
    if mono_has(m, v) {
        assert(mono_has(t[y].0, v));
    } else {
        lemma_exponent_absent(m, v);
        assert(exponent(k, v) == clearing(t, v));
        lemma_clearing_attained(t, v);
        let w = choose|w: int|
            0 <= w < t.len() && clearing(t, v) == -#[trigger] exponent(t[w].0, v);
        if !mono_has(t[w].0, v) {
            lemma_exponent_absent(t[w].0, v);
        }
        assert(mono_has(t[w].0, v));
    }
}

/// Compares two constraints.
pub fn compare_constraints<F: Field>(lhs: &Constraint<F>, rhs: &Constraint<F>) -> (ret: Comparison)
    ensures
        ret == Comparison::Less <==> terms_less(lhs@, rhs@),
        ret == Comparison::Equal <==> lhs@ == rhs@,
        ret == Comparison::Greater <==> terms_less(rhs@, lhs@),
{
    let ghost a = lhs@;
    let ghost b = rhs@;
    let mut i: usize = 0;
    proof {
        assert(a.subrange(0, a.len() as int) =~= a);
        assert(b.subrange(0, b.len() as int) =~= b);
        lemma_terms_less_irreflexive(a);
    }
    while i < lhs.terms.len() && i < rhs.terms.len()
        invariant
            i <= lhs.terms.len(),
            i <= rhs.terms.len(),
            a == lhs@,
            b == rhs@,
            a == terms_of(lhs.terms@),
            b == terms_of(rhs.terms@),
            a.subrange(0, i as int) == b.subrange(0, i as int),
            terms_less(a, b) <==> terms_less(
                a.subrange(i as int, a.len() as int),
                b.subrange(i as int, b.len() as int),
            ),
            terms_less(b, a) <==> terms_less(
                b.subrange(i as int, b.len() as int),
                a.subrange(i as int, a.len() as int),
            ),
        decreases lhs.terms.len() - i,
    {
        let ghost x = a.subrange(i as int, a.len() as int);
        let ghost y = b.subrange(i as int, b.len() as int);
        let f = &lhs.terms[i];
        let g = &rhs.terms[i];
        proof {
            assert(x[0] == a[i as int] && y[0] == b[i as int]);
            assert(a[i as int] == (mono_of(f.factors@), f.coefficient.value()));
            assert(b[i as int] == (mono_of(g.factors@), g.coefficient.value()));
            assert(x.drop_first() =~= a.subrange(i + 1, a.len() as int));
            assert(y.drop_first() =~= b.subrange(i + 1, b.len() as int));
            lemma_mono_less_irreflexive(x[0].0);
            lemma_mono_less_irreflexive(y[0].0);
            if mono_less(x[0].0, y[0].0) && mono_less(y[0].0, x[0].0) {
                lemma_mono_less_transitive(x[0].0, y[0].0, x[0].0);
            }
        }
        match compare_monomials(&f.factors, &g.factors) {
            Comparison::Less => {
                return Comparison::Less;
            },
            Comparison::Greater => {
                return Comparison::Greater;
            },
            Comparison::Equal => {},
        }
        if less(f.coefficient, g.coefficient) {
            return Comparison::Less;
        }
        if less(g.coefficient, f.coefficient) {
            return Comparison::Greater;
        }
        proof {
            assert(a.subrange(0, i + 1) =~= a.subrange(0, i as int).push(a[i as int]));
            assert(b.subrange(0, i + 1) =~= b.subrange(0, i as int).push(b[i as int]));
        }
        i += 1;
    }
    let ghost x = a.subrange(i as int, a.len() as int);
    let ghost y = b.subrange(i as int, b.len() as int);
    if i < rhs.terms.len() {
        proof {
            assert(x.len() == 0);
            assert(a.len() != b.len());
        }
        Comparison::Less
    } else if i < lhs.terms.len() {
        proof {
            assert(y.len() == 0);
            assert(a.len() != b.len());
        }
        Comparison::Greater
    } else {
        proof {
            assert(a =~= a.subrange(0, i as int));
            assert(b =~= b.subrange(0, i as int));
        }
        Comparison::Equal
    }
}

/// A normal form is its own normal form.
pub proof fn lemma_normal_form_self(t: Terms, p: int)
    requires
        p > 0,
        terms_wf(t, p),
    ensures
        is_normal_form(t, t, p),
{
    assert forall|m: Mono| #[trigger] coeff(t, m) == coeff(t, m) % p by {
        lemma_coeff_bounds(t, m, p);
        lemma_small(coeff(t, m), p);
    }
}

/// A normal form has the coefficients of what it stands for.
pub proof fn lemma_same_of_normal(r: Terms, t: Terms, p: int)
    requires
        p > 0,
        is_normal_form(r, t, p),
    ensures
        same_terms(r, t, p),
{
    assert forall|m: Mono| #[trigger] coeff(r, m) % p == coeff(t, m) % p by {
        lemma_mod_twice(coeff(t, m), p);
    }
}

/// The monomials of a normal form occur in what it stands for.
pub proof fn lemma_normal_form_member(r: Terms, t: Terms, i: int, p: int)
    requires
        p > 0,
        is_normal_form(r, t, p),
        0 <= i < r.len(),
    ensures
        exists|k: int| 0 <= k < t.len() && (#[trigger] t[k]).0 == r[i].0,
{
    lemma_coeff_at(r, i, p);
    if forall|k: int| 0 <= k < t.len() ==> (#[trigger] t[k]).0 != r[i].0 {
        lemma_coeff_absent(t, r[i].0);
        lemma_small(0, p);
    }
}

/// Multiplying by one from the left.
proof fn lemma_power_one_left(t: Terms, p: int)
    ensures
        same_terms(t, product_terms(power_terms(t, 0), t), p),
{
    lemma_product_one(t, p);
}

/// Multiplying by one from the right.
proof fn lemma_power_one_right(t: Terms, p: int)
    requires
        terms_wf(t, p),
    ensures
        same_terms(product_terms(t, power_terms(t, 0)), t, p),
{
    lemma_power_monos_wf(t, 0);
    lemma_product_commutes(t, power_terms(t, 0), p);
    lemma_product_one(t, p);
}

/// One step of exponentiation by squaring, on an odd exponent.
proof fn lemma_power_odd_step(goal: Terms, r0: Terms, r1: Terms, b: Terms, n: nat, p: int)
    requires
        p > 0,
        n > 0,
        monos_wf(r0),
        monos_wf(b),
        same_terms(goal, product_terms(r0, power_terms(b, n)), p),
        same_terms(r1, product_terms(r0, b), p),
    ensures
        same_terms(goal, product_terms(r1, power_terms(b, (n - 1) as nat)), p),
{
    let k = (n - 1) as nat;
    let rest = power_terms(b, k);
    lemma_power_monos_wf(b, k);
    // b^n is rest * b, which is b * rest
    lemma_product_commutes(rest, b, p);
    assert(power_terms(b, n) == product_terms(rest, b));
    assert(same_terms(r0, r0, p));
    assert(same_terms(rest, rest, p));
    lemma_product_same_terms(r0, r0, power_terms(b, n), product_terms(b, rest), p);
    lemma_product_associates(r0, b, rest, p);
    lemma_product_same_terms(r1, product_terms(r0, b), rest, rest, p);
    assert forall|m: Mono| #[trigger] coeff(goal, m) % p == coeff(product_terms(r1, rest), m) % p by {
        assert(coeff(product_terms(r0, power_terms(b, n)), m) % p == coeff(
            product_terms(r0, product_terms(b, rest)),
            m,
        ) % p);
        assert(coeff(product_terms(product_terms(r0, b), rest), m) % p == coeff(
            product_terms(r0, product_terms(b, rest)),
            m,
        ) % p);
        assert(coeff(product_terms(r1, rest), m) % p == coeff(
            product_terms(product_terms(r0, b), rest),
            m,
        ) % p);
    }
}

/// One step of exponentiation by squaring, on an even exponent.
proof fn lemma_power_even_step(goal: Terms, r: Terms, b0: Terms, b1: Terms, half: nat, p: int)
    requires
        p > 0,
        monos_wf(b0),
        same_terms(goal, product_terms(r, power_terms(b0, 2 * half)), p),
        same_terms(b1, product_terms(b0, b0), p),
    ensures
        same_terms(goal, product_terms(r, power_terms(b1, half)), p),
{
    lemma_power_double(b0, half, p);
    lemma_power_same_terms(b1, product_terms(b0, b0), half, p);
    let x = power_terms(b0, 2 * half);
    let y = power_terms(product_terms(b0, b0), half);
    let z = power_terms(b1, half);
    assert(same_terms(r, r, p));
    lemma_product_same_terms(r, r, x, y, p);
    lemma_product_same_terms(r, r, z, y, p);
    assert forall|m: Mono| #[trigger] coeff(goal, m) % p == coeff(product_terms(r, z), m) % p by {
        assert(coeff(product_terms(r, x), m) % p == coeff(product_terms(r, y), m) % p);
        assert(coeff(product_terms(r, z), m) % p == coeff(product_terms(r, y), m) % p);
    }
}

/// A number whose multiple is in range is between the quotients of the range.
proof fn lemma_quotient_bounds(e: int, n: int)
    requires
        n > 0,
        fits_isize(e * n),
    ensures
        -((-(isize::MIN as int)) / n) <= e <= isize::MAX as int / n,
{
    let hi = isize::MAX as int;
    let lo = -(isize::MIN as int);
    assert(e <= hi / n) by (nonlinear_arith)
        requires
            e * n <= hi,
            n > 0,
    ;
    assert(-e <= lo / n) by (nonlinear_arith)
        requires
            -lo <= e * n,
            n > 0,
    ;
}

/// Multiples of the quotients of the range are in range.
proof fn lemma_quotient_fits(n: int)
    requires
        n > 0,
    ensures
        fits_isize((isize::MAX as int / n) * n),
        fits_isize(-((-(isize::MIN as int)) / n) * n),
        isize::MAX as int / n >= 0,
        -((-(isize::MIN as int)) / n) <= 0,
{
    let hi = isize::MAX as int;
    let lo = -(isize::MIN as int);
    assert(0 <= (hi / n) * n <= hi && hi / n >= 0) by (nonlinear_arith)
        requires
            n > 0,
            hi >= 0,
    ;
    assert(0 <= (lo / n) * n <= lo && lo / n >= 0) by (nonlinear_arith)
        requires
            n > 0,
            lo >= 0,
    ;
    assert(-(lo / n) * n == -((lo / n) * n)) by (nonlinear_arith);
}

/// Signs of multiples of bounds.
proof fn lemma_bounds_scale(lo: int, hi: int, x: int, y: int)
    requires
        lo <= 0 <= hi,
        x >= 0,
        y >= 0,
    ensures
        lo * x <= 0 <= hi * x,
        lo * y <= 0 <= hi * y,
{
    assert(lo * x <= 0 <= hi * x && lo * y <= 0 <= hi * y) by (nonlinear_arith)
        requires
            lo <= 0 <= hi,
            x >= 0,
            y >= 0,
    ;
}

/// Products of bounded sums are in range.
proof fn lemma_product_in_range(a: Terms, b: Terms, lo: int, hi: int, x: int, y: int, n: int)
    requires
        monos_wf(a),
        monos_wf(b),
        lo <= 0 <= hi,
        x >= 0,
        y >= 0,
        x + y <= n,
        fits_isize(lo * n),
        fits_isize(hi * n),
        terms_within(a, lo * x, hi * x),
        terms_within(b, lo * y, hi * y),
    ensures
        product_fits(a, b),
{
    lemma_bounds_scale(lo, hi, x, y);
    assert(lo * x + lo * y >= lo * n && hi * x + hi * y <= hi * n) by (nonlinear_arith)
        requires
            lo <= 0 <= hi,
            x + y <= n,
    ;
    assert forall|i: int, j: int| 0 <= i < a.len() && 0 <= j < b.len() implies exponents_fit(
        #[trigger] mono_mul(a[i].0, b[j].0),
    ) by {
        lemma_mono_mul_within(a[i].0, b[j].0, lo * x, hi * x, lo * y, hi * y);
        let r = mono_mul(a[i].0, b[j].0);
        assert forall|k: int| 0 <= k < r.len() implies fits_isize((#[trigger] r[k]).1) by {
            assert(lo * x + lo * y <= r[k].1 <= hi * x + hi * y);
        }
    }
}

/// The coefficients of a growing prefix.
proof fn lemma_coeff_subrange_step(t: Terms, i: int, m: Mono)
    requires
        0 <= i < t.len(),
    ensures
        coeff(t.subrange(0, i + 1), m) == coeff(t.subrange(0, i), m) + if m == t[i].0 {
            t[i].1
        } else {
            0
        },
{
    let s = t.subrange(0, i + 1);
    assert(s.drop_last() =~= t.subrange(0, i));
    assert(s.last() == t[i]);
}

/// Copies a list of terms.
fn copy_terms<F: Field>(terms: &Vec<Term<F>>) -> (ret: Vec<Term<F>>)
    ensures
        terms_of(ret@) == terms_of(terms@),
{
    let mut ret: Vec<Term<F>> = Vec::new();
    let mut i: usize = 0;
    while i < terms.len()
        invariant
            i <= terms.len(),
            ret@.len() == i,
            forall|j: int|
                0 <= j < i ==> (#[trigger] ret@[j]).factors@ == terms@[j].factors@
                    && ret@[j].coefficient == terms@[j].coefficient,
        decreases terms.len() - i,
    {
        ret.push(
            Term { factors: copy_factors(&terms[i].factors), coefficient: terms[i].coefficient },
        );
        i += 1;
    }
    proof {
        assert(terms_of(ret@) =~= terms_of(terms@));
    }
    ret
}

} // verus!
