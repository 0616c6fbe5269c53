//! Arithmetic on constraint expressions that reports exponents out of range.
use crate::algebra::mono_pow;
use crate::expr::{
    canonical, clearing_fits, is_normal_form, lemma_clearing_attained, lemma_degree_member,
    lemma_degree_prefix, mono_degree, power_fits, product_fits, signed_power_terms, terms_degree,
    Constraint,
};
use crate::field::Field;
use crate::monomial::{checked_multiply_variables, exponents_fit, fits_isize, mono_of, Factors};
use crate::ops::division_fits;
use crate::terms::{
    clearing, exponent, is_clearing, lemma_clearing_member, lemma_exponent_absent,
    lemma_exponent_at, lemma_mono_mul_exponent, lemma_mono_mul_wf, mono_has, mono_mul,
    product_terms, terms_wf, Mono, Terms,
};
use crate::variable::Variable;
use vstd::prelude::*;

verus! {

impl<F: Field> Constraint<F> {
    /// Tells whether the exponents of a product are in range.
    fn can_multiply(&self, rhs: &Self) -> (ret: bool)
        ensures
            ret == product_fits(self@, rhs@),
    {
        let mut i: usize = 0;
        while i < self.num_terms()
            invariant
                i <= self@.len(),
                forall|x: int, y: int|
                    0 <= x < i && 0 <= y < rhs@.len() ==> exponents_fit(
                        #[trigger] mono_mul(self@[x].0, rhs@[y].0),
                    ),
            decreases self@.len() - i,
        {
            let mut j: usize = 0;
            while j < rhs.num_terms()
                invariant
                    i < self@.len(),
                    j <= rhs@.len(),
                    forall|x: int, y: int|
                        0 <= x < i && 0 <= y < rhs@.len() ==> exponents_fit(
                            #[trigger] mono_mul(self@[x].0, rhs@[y].0),
                        ),
                    forall|y: int|
                        0 <= y < j ==> exponents_fit(
                            #[trigger] mono_mul(self@[i as int].0, rhs@[y].0),
                        ),
                decreases rhs@.len() - j,
            {
                let a = self.term(i);
                let b = rhs.term(j);
                if checked_multiply_variables(&a.factors, &b.factors).is_none() {
                    assert(!exponents_fit(mono_mul(self@[i as int].0, rhs@[j as int].0)));
                    return false;
                }
                j += 1;
            }
            i += 1;
        }
        true
    }

    /// Tells whether the exponents of a power are in range.
    fn can_raise(&self, exponent: isize) -> (ret: bool)
        ensures
            ret == power_fits(self@, exponent as int),
    {
        let mut i: usize = 0;
        while i < self.num_terms()
            invariant
                i <= self@.len(),
                forall|x: int, y: int|
                    0 <= x < i && 0 <= y < self@[x].0.len() ==> fits_isize(
                        (#[trigger] self@[x].0[y]).1 * exponent,
                    ),
            decreases self@.len() - i,
        {
            let factors = &self.term(i).factors;
            let mut j: usize = 0;
            while j < factors.len()
                invariant
                    i < self@.len(),
                    self@[i as int].0 == mono_of(factors@),
                    j <= factors.len(),
                    forall|x: int, y: int|
                        0 <= x < i && 0 <= y < self@[x].0.len() ==> fits_isize(
                            (#[trigger] self@[x].0[y]).1 * exponent,
                        ),
                    forall|y: int|
                        0 <= y < j ==> fits_isize((#[trigger] self@[i as int].0[y]).1 * exponent),
                decreases factors.len() - j,
            {
                let e: isize = factors[j].1;
                proof {
                    assert(self@[i as int].0[j as int].1 == e);
                    lemma_i128_product(e as int, exponent as int);
                }
                let product: i128 = e as i128 * exponent as i128;
                if product < isize::MIN as i128 || product > isize::MAX as i128 {
                    return false;
                }
                j += 1;
            }
            i += 1;
        }
        true
    }

    /// Multiplies two constraints, or returns `None` if an exponent is out of range.
    pub fn checked_times(&self, rhs: &Self) -> (ret: Option<Self>)
        ensures
            ret is Some <==> product_fits(self@, rhs@),
            ret is Some ==> is_normal_form(
                (ret->Some_0)@,
                product_terms(self@, rhs@),
                F::modulus(),
            ),
    {
        if self.can_multiply(rhs) {
            Some(self.times(rhs))
        } else {
            None
        }
    }

    /// Raises the constraint to a power, or returns `None` if an exponent is out of range.
    pub fn checked_power(&self, exponent: isize) -> (ret: Option<Self>)
        requires
            exponent < 0 ==> self@.len() == 1,
        ensures
            ret is Some <==> power_fits(self@, exponent as int),
            ret is Some ==> is_normal_form(
                (ret->Some_0)@,
                signed_power_terms(self@, exponent as int, F::modulus()),
                F::modulus(),
            ),
    {
        if self.can_raise(exponent) {
            Some(self.power(exponent))
        } else {
            None
        }
    }

    /// Divides the constraint by a single monomial, or returns `None` if an exponent is out of
    /// range.
    pub fn checked_divided_by(&self, rhs: &Self) -> (ret: Option<Self>)
        requires
            rhs@.len() == 1,
        ensures
            ret is Some <==> division_fits(self@, rhs@, F::modulus()),
            ret is Some ==> is_normal_form(
                (ret->Some_0)@,
                product_terms(self@, signed_power_terms(rhs@, -1, F::modulus())),
                F::modulus(),
            ),
    {
        if !rhs.can_raise(-1) {
            return None;
        }
        let ghost inverse = signed_power_terms(rhs@, -1, F::modulus());
        let source = &rhs.term(0).factors;
        let mut factors: Factors = Vec::new();
        let mut j: usize = 0;
        while j < source.len()
            invariant
                j <= source.len(),
                rhs@.len() == 1,
                rhs@[0].0 == mono_of(source@),
                power_fits(rhs@, -1),
                factors@.len() == j,
                forall|k: int|
                    0 <= k < j ==> (#[trigger] factors@[k]).0 == source@[k].0 && factors@[k].1
                        == source@[k].1 * -1,
            decreases source.len() - j,
        {
            proof {
                assert(fits_isize(rhs@[0].0[j as int].1 * -1));
            }
            factors.push((source[j].0, -source[j].1));
            j += 1;
        }
        proof {
            assert(mono_of(factors@) =~= mono_pow(rhs@[0].0, -1));
        }
        let mut i: usize = 0;
        while i < self.num_terms()
            invariant
                i <= self@.len(),
                inverse.len() == 1,
                inverse[0].0 == mono_of(factors@),
                inverse == signed_power_terms(rhs@, -1, F::modulus()),
                forall|x: int|
                    0 <= x < i ==> exponents_fit(#[trigger] mono_mul(self@[x].0, inverse[0].0)),
            decreases self@.len() - i,
        {
            if checked_multiply_variables(&self.term(i).factors, &factors).is_none() {
                assert(!exponents_fit(mono_mul(self@[i as int].0, inverse[0].0)));
                return None;
            }
            i += 1;
        }
        Some(self.divided_by(rhs))
    }
}

impl<F: Field> Constraint<F> {
    /// Converts the constraint to canonical form, or returns `None` if an exponent is out of range.
    pub fn checked_canonicalize(&self) -> (ret: Option<Self>)
        ensures
            ret is Some <==> clearing_fits(self@),
            ret matches Some(c) ==> canonical(c@),
            ret matches Some(c) ==> forall|k: Mono| #[trigger]
                is_clearing(k, self@) ==> is_normal_form(
                    c@,
                    product_terms(self@, seq![(k, 1int)]),
                    F::modulus(),
                ),
            ret is Some ==> exists|k: Mono| is_clearing(k, self@),
    {
        let ghost t = self@;
        proof {
            use_type_invariant(self);
        }
        let mut i: usize = 0;
        while i < self.num_terms()
            invariant
                i <= t.len(),
                t == self@,
                terms_wf(t, F::modulus()),
                forall|x: int, y: int|
                    0 <= x < i && 0 <= y < t[x].0.len() ==> fits_isize(
                        -(#[trigger] t[x].0[y]).1,
                    ),
            decreases t.len() - i,
        {
            let factors = &self.term(i).factors;
            let mut j: usize = 0;
            while j < factors.len()
                invariant
                    i < t.len(),
                    t == self@,
                    terms_wf(t, F::modulus()),
                    t[i as int].0 == mono_of(factors@),
                    j <= factors.len(),
                    forall|x: int, y: int|
                        0 <= x < i && 0 <= y < t[x].0.len() ==> fits_isize(
                            -(#[trigger] t[x].0[y]).1,
                        ),
                    forall|y: int| 0 <= y < j ==> fits_isize(-(#[trigger] t[i as int].0[y]).1),
                decreases factors.len() - j,
            {
                if factors[j].1 == isize::MIN {
                    proof {
                        let f = t[i as int].0[j as int];
                        lemma_exponent_at(t[i as int].0, j as int);
                        lemma_clearing_member(t, i as int, f.0);
                        assert(!fits_isize(clearing(t, f.0)));
                    }
                    return None;
                }
                j += 1;
            }
            i += 1;
        }
        proof {
            assert forall|v: Variable| fits_isize(#[trigger] clearing(t, v)) by {
                lemma_clearing_attained(t, v);
                if clearing(t, v) != 0 {
                    let w = choose|w: int|
                        0 <= w < t.len() && clearing(t, v) == -#[trigger] exponent(t[w].0, v);
                    if mono_has(t[w].0, v) {
                        let m = t[w].0;
                        let y = choose|y: int| 0 <= y < m.len() && (#[trigger] m[y]).0 == v;
                        lemma_exponent_at(m, y);
                        assert(fits_isize(-t[w].0[y].1));
                    } else {
                        lemma_exponent_absent(t[w].0, v);
                    }
                }
            }
        }
        let clearing_factors = self.get_clearing();
        let ghost k = mono_of(clearing_factors@);
        let mut i: usize = 0;
        while i < self.num_terms()
            invariant
                i <= t.len(),
                t == self@,
                terms_wf(t, F::modulus()),
                k == mono_of(clearing_factors@),
                is_clearing(k, t),
                forall|v: Variable| fits_isize(#[trigger] clearing(t, v)),
                forall|x: int, v: Variable|
                    0 <= x < i ==> fits_isize(#[trigger] exponent(t[x].0, v) + clearing(t, v)),
            decreases t.len() - i,
        {
            let factors = &self.term(i).factors;
            let product = checked_multiply_variables(factors, &clearing_factors);
            let ghost m = t[i as int].0;
            let ghost r = mono_mul(m, k);
            proof {
                lemma_mono_mul_wf(m, k);
            }
            if product.is_none() {
                proof {
                    let y = choose|y: int| 0 <= y < r.len() && !fits_isize((#[trigger] r[y]).1);
                    let v = r[y].0;
                    lemma_exponent_at(r, y);
                    lemma_mono_mul_exponent(m, k, v);
                    assert(exponent(k, v) == clearing(t, v));
                    assert(!fits_isize(exponent(t[i as int].0, v) + clearing(t, v)));
                }
                return None;
            }
            proof {
                assert forall|v: Variable| fits_isize(
                    #[trigger] exponent(t[i as int].0, v) + clearing(t, v),
                ) by {
                    lemma_mono_mul_exponent(m, k, v);
                    assert(exponent(k, v) == clearing(t, v));
                    if mono_has(r, v) {
                        let y = choose|y: int| 0 <= y < r.len() && (#[trigger] r[y]).0 == v;
                        lemma_exponent_at(r, y);
                    } else {
                        lemma_exponent_absent(r, v);
                    }
                }
            }
            i += 1;
        }
        Some(self.canonicalize())
    }
}

impl<F: Field> Constraint<F> {
    /// Calculates the degree of the constraint, which must be canonical, or returns `None` if it is
    /// not in the range of [`usize`].
    pub fn checked_degree(&self) -> (ret: Option<usize>)
        requires
            canonical(self@),
        ensures
            ret is Some <==> terms_degree(self@) <= usize::MAX,
            ret is Some ==> ret->Some_0 == terms_degree(self@),
    {
        let ghost t = self@;
        let mut i: usize = 0;
        while i < self.num_terms()
            invariant
                i <= t.len(),
                t == self@,
                canonical(t),
                forall|k: int| 0 <= k < i ==> mono_degree((#[trigger] t[k]).0) <= usize::MAX,
            decreases t.len() - i,
        {
            let factors = &self.term(i).factors;
            let ghost m = t[i as int].0;
            let mut total: usize = 0;
            let mut j: usize = 0;
            proof {
                assert(m.subrange(0, 0) =~= seq![]);
                assert forall|k: int| 0 <= k < m.len() implies (#[trigger] m[k]).1 >= 0 by {
                    assert(t[i as int].0[k].1 >= 0);
                }
            }
            while j < factors.len()
                invariant
                    j <= factors.len(),
                    i < t.len(),
                    t == self@,
                    m == t[i as int].0,
                    m == mono_of(factors@),
                    forall|k: int| 0 <= k < m.len() ==> (#[trigger] m[k]).1 >= 0,
                    total == mono_degree(m.subrange(0, j as int)),
                decreases factors.len() - j,
            {
                assert(m[j as int].1 >= 0);
                let e: usize = factors[j].1 as usize;
                proof {
                    let prefix = m.subrange(0, j + 1);
                    assert(prefix.drop_last() =~= m.subrange(0, j as int));
                    assert(prefix.last() == m[j as int]);
                    assert(m[j as int].1 >= 0);
                    lemma_degree_prefix(m, j + 1);
                }
                if e > usize::MAX - total {
                    proof {
                        lemma_degree_member(t, i as int);
                    }
                    return None;
                }
                total = total + e;
                j += 1;
            }
            proof {
                assert(m.subrange(0, m.len() as int) =~= m);
            }
            i += 1;
        }
        proof {
            lemma_degree_bounded(t, usize::MAX as int);
        }
        Some(self.get_degree())
    }
}

/// The degree is one of those of the monomials, or zero.
proof fn lemma_degree_bounded(t: Terms, bound: int)
    requires
        bound >= 0,
        forall|k: int| 0 <= k < t.len() ==> mono_degree((#[trigger] t[k]).0) <= bound,
    ensures
        terms_degree(t) <= bound,
    decreases t.len(),
{
    if t.len() > 0 {
        let init = t.drop_last();
        assert forall|k: int| 0 <= k < init.len() implies mono_degree((#[trigger] init[k]).0)
            <= bound by {
            assert(init[k] == t[k]);
        }
        assert(t.last() == t[t.len() - 1]);
        lemma_degree_bounded(init, bound);
    }
}

/// Products of [`isize`] values are in the range of [`i128`].
proof fn lemma_i128_product(a: int, b: int)
    requires
        fits_isize(a),
        fits_isize(b),
    ensures
        i128::MIN <= a * b <= i128::MAX,
{
    assert(-0x4000_0000_0000_0000_0000_0000_0000_0000 <= a * b
        <= 0x4000_0000_0000_0000_0000_0000_0000_0000) by (nonlinear_arith)
        requires
            -0x8000_0000_0000_0000 <= a <= 0x8000_0000_0000_0000,
            -0x8000_0000_0000_0000 <= b <= 0x8000_0000_0000_0000,
    ;
}

} // verus!
