//! Operators on constraint expressions.
use crate::algebra::lemma_product_same_terms;
use crate::arith::lemma_mod_add;
use crate::expr::{
    compare_constraints, const_terms, is_difference, is_normal_form, is_sum, lemma_normal_form_self,
    lemma_same_of_normal, power_fits, product_fits, signed_power_terms, var_terms, Constraint,
};
use crate::field::{Field, Scalar, GL};
use crate::monomial::Comparison;
use crate::terms::{coeff, lemma_coeff_concat, product_terms, same_terms, terms_less, Mono, Terms};
use crate::utils::isize_to_scalar;
use crate::variable::Variable;
use vstd::prelude::*;

verus! {

/// Values that stand for a constraint expression.
pub trait Operand<F: Field>: Sized {
    /// The expression.
    spec fn terms(self) -> Terms;

    /// Converts the value to a constraint.
    fn into_constraint(self) -> (ret: Constraint<F>)
        ensures
            ret@ == self.terms(),
    ;
}

impl<F: Field> Operand<F> for Constraint<F> {
    open spec fn terms(self) -> Terms {
        self@
    }

    fn into_constraint(self) -> (ret: Constraint<F>) {
        self
    }
}

impl<F: Field> Operand<F> for Variable {
    open spec fn terms(self) -> Terms {
        var_terms(self)
    }

    fn into_constraint(self) -> (ret: Constraint<F>) {
        Constraint::make_var(self.column_index, self.rotation)
    }
}

impl<F: Field> Operand<F> for isize {
    open spec fn terms(self) -> Terms {
        const_terms(self as int % F::modulus())
    }

    fn into_constraint(self) -> (ret: Constraint<F>) {
        Constraint::make_const(isize_to_scalar::<F>(self))
    }
}

impl Operand<Scalar> for Scalar {
    open spec fn terms(self) -> Terms {
        const_terms(self.value())
    }

    fn into_constraint(self) -> (ret: Constraint<Scalar>) {
        Constraint::make_const(self)
    }
}

impl Operand<GL> for GL {
    open spec fn terms(self) -> Terms {
        const_terms(self.value())
    }

    fn into_constraint(self) -> (ret: Constraint<GL>) {
        Constraint::make_const(self)
    }
}

impl<F: Field> From<Variable> for Constraint<F> {
    fn from(value: Variable) -> (ret: Self)
        ensures
            ret@ == var_terms(value),
    {
        Constraint::make_var(value.column_index, value.rotation)
    }
}

impl<F: Field> vstd::std_specs::convert::FromSpecImpl<Variable> for Constraint<F> {
    open spec fn obeys_from_spec() -> bool {
        false
    }

    open spec fn from_spec(v: Variable) -> Self {
        arbitrary()
    }
}

impl From<Scalar> for Constraint<Scalar> {
    fn from(value: Scalar) -> (ret: Self)
        ensures
            ret@ == const_terms(value.value()),
    {
        Constraint::make_const(value)
    }
}

impl vstd::std_specs::convert::FromSpecImpl<Scalar> for Constraint<Scalar> {
    open spec fn obeys_from_spec() -> bool {
        false
    }

    open spec fn from_spec(v: Scalar) -> Self {
        arbitrary()
    }
}

impl From<GL> for Constraint<GL> {
    fn from(value: GL) -> (ret: Self)
        ensures
            ret@ == const_terms(value.value()),
    {
        Constraint::make_const(value)
    }
}

impl vstd::std_specs::convert::FromSpecImpl<GL> for Constraint<GL> {
    open spec fn obeys_from_spec() -> bool {
        false
    }

    open spec fn from_spec(v: GL) -> Self {
        arbitrary()
    }
}

impl<F: Field> From<isize> for Constraint<F> {
    fn from(value: isize) -> (ret: Self)
        ensures
            ret@ == const_terms(value as int % F::modulus()),
    {
        Constraint::make_const(isize_to_scalar::<F>(value))
    }
}

impl<F: Field> vstd::std_specs::convert::FromSpecImpl<isize> for Constraint<F> {
    open spec fn obeys_from_spec() -> bool {
        false
    }

    open spec fn from_spec(v: isize) -> Self {
        arbitrary()
    }
}

impl<F: Field> Default for Constraint<F> {
    fn default() -> (ret: Self)
        ensures
            ret@ == Seq::<(Mono, int)>::empty(),
    {
        Constraint::nop()
    }
}

impl<F: Field> Clone for Constraint<F> {
    fn clone(&self) -> (ret: Self)
        ensures
            ret@ == self@,
    {
        self.copy()
    }
}

impl<F: Field> PartialEq for Constraint<F> {
    fn eq(&self, other: &Self) -> (ret: bool) {
        match compare_constraints(self, other) {
            Comparison::Equal => true,
            _ => false,
        }
    }
}

impl<F: Field> vstd::std_specs::cmp::PartialEqSpecImpl for Constraint<F> {
    open spec fn obeys_eq_spec() -> bool {
        true
    }

    open spec fn eq_spec(&self, other: &Self) -> bool {
        self@ == other@
    }
}

impl<F: Field> Eq for Constraint<F> {
}

impl<F: Field> PartialOrd for Constraint<F> {
    fn partial_cmp(&self, other: &Self) -> (ret: Option<core::cmp::Ordering>) {
        match compare_constraints(self, other) {
            Comparison::Less => Some(core::cmp::Ordering::Less),
            Comparison::Equal => Some(core::cmp::Ordering::Equal),
            Comparison::Greater => Some(core::cmp::Ordering::Greater),
        }
    }
}

impl<F: Field> vstd::std_specs::cmp::PartialOrdSpecImpl for Constraint<F> {
    open spec fn obeys_partial_cmp_spec() -> bool {
        true
    }

    open spec fn partial_cmp_spec(&self, other: &Self) -> Option<core::cmp::Ordering> {
        if terms_less(self@, other@) {
            Some(core::cmp::Ordering::Less)
        } else if self@ == other@ {
            Some(core::cmp::Ordering::Equal)
        } else {
            Some(core::cmp::Ordering::Greater)
        }
    }
}

impl<F: Field, V: Operand<F>> core::ops::Add<V> for Constraint<F> {
    type Output = Constraint<F>;

    fn add(self, rhs: V) -> (ret: Constraint<F>)
        ensures
            is_sum(ret@, self@, rhs.terms(), F::modulus()),
    {
        self.plus(&rhs.into_constraint())
    }
}

impl<F: Field, V: Operand<F>> vstd::std_specs::ops::AddSpecImpl<V> for Constraint<F> {
    open spec fn obeys_add_spec() -> bool {
        false
    }

    open spec fn add_req(self, rhs: V) -> bool {
        true
    }

    open spec fn add_spec(self, rhs: V) -> Constraint<F> {
        arbitrary()
    }
}

impl<F: Field, V: Operand<F>> core::ops::Sub<V> for Constraint<F> {
    type Output = Constraint<F>;

    fn sub(self, rhs: V) -> (ret: Constraint<F>)
        ensures
            is_difference(ret@, self@, rhs.terms(), F::modulus()),
    {
        self.minus(&rhs.into_constraint())
    }
}

impl<F: Field, V: Operand<F>> vstd::std_specs::ops::SubSpecImpl<V> for Constraint<F> {
    open spec fn obeys_sub_spec() -> bool {
        false
    }

    open spec fn sub_req(self, rhs: V) -> bool {
        true
    }

    open spec fn sub_spec(self, rhs: V) -> Constraint<F> {
        arbitrary()
    }
}

impl<F: Field> core::ops::Neg for Constraint<F> {
    type Output = Constraint<F>;

    fn neg(self) -> (ret: Constraint<F>)
        ensures
            is_difference(ret@, seq![], self@, F::modulus()),
    {
        self.negated()
    }
}

impl<F: Field> vstd::std_specs::ops::NegSpecImpl for Constraint<F> {
    open spec fn obeys_neg_spec() -> bool {
        false
    }

    open spec fn neg_req(self) -> bool {
        true
    }

    open spec fn neg_spec(self) -> Constraint<F> {
        arbitrary()
    }
}

impl<F: Field, V: Operand<F>> core::ops::Mul<V> for Constraint<F> {
    type Output = Constraint<F>;

    fn mul(self, rhs: V) -> (ret: Constraint<F>)
        ensures
            is_normal_form(ret@, product_terms(self@, rhs.terms()), F::modulus()),
    {
        self.times(&rhs.into_constraint())
    }
}

impl<F: Field, V: Operand<F>> vstd::std_specs::ops::MulSpecImpl<V> for Constraint<F> {
    open spec fn obeys_mul_spec() -> bool {
        false
    }

    open spec fn mul_req(self, rhs: V) -> bool {
        product_fits(self@, rhs.terms())
    }

    open spec fn mul_spec(self, rhs: V) -> Constraint<F> {
        arbitrary()
    }
}

/// `a` can be divided by `b`: `b` is a single term, and the exponents of the quotient are in the
/// range of [`isize`].
pub open spec fn division_fits(a: Terms, b: Terms, p: int) -> bool {
    &&& b.len() == 1
    &&& power_fits(b, -1)
    &&& product_fits(a, signed_power_terms(b, -1, p))
}

impl<F: Field, V: Operand<F>> core::ops::Div<V> for Constraint<F> {
    type Output = Constraint<F>;

    /// Multiplies the LHS by the inverse of the RHS, which must have exactly one monomial and must
    /// not be zero.
    fn div(self, rhs: V) -> (ret: Constraint<F>)
        ensures
            is_normal_form(
                ret@,
                product_terms(self@, signed_power_terms(rhs.terms(), -1, F::modulus())),
                F::modulus(),
            ),
    {
        self.divided_by(&rhs.into_constraint())
    }
}

impl<F: Field, V: Operand<F>> vstd::std_specs::ops::DivSpecImpl<V> for Constraint<F> {
    open spec fn obeys_div_spec() -> bool {
        false
    }

    open spec fn div_req(self, rhs: V) -> bool {
        division_fits(self@, rhs.terms(), F::modulus())
    }

    open spec fn div_spec(self, rhs: V) -> Constraint<F> {
        arbitrary()
    }
}

impl<F: Field> core::ops::BitXor<isize> for Constraint<F> {
    type Output = Constraint<F>;

    /// Raises the constraint to a power, as per [`Constraint::bitxor_assign`].
    fn bitxor(self, rhs: isize) -> (ret: Constraint<F>)
        ensures
            is_normal_form(
                ret@,
                signed_power_terms(self@, rhs as int, F::modulus()),
                F::modulus(),
            ),
    {
        self.power(rhs)
    }
}

impl<F: Field> vstd::std_specs::ops::BitXorSpecImpl<isize> for Constraint<F> {
    open spec fn obeys_bitxor_spec() -> bool {
        false
    }

    open spec fn bitxor_req(self, rhs: isize) -> bool {
        (rhs < 0 ==> self@.len() == 1) && power_fits(self@, rhs as int)
    }

    open spec fn bitxor_spec(self, rhs: isize) -> Constraint<F> {
        arbitrary()
    }
}

impl<F: Field> Constraint<F> {
    /// Adds a constraint in place.
    pub fn add_assign<V: Operand<F>>(&mut self, rhs: V)
        ensures
            is_sum(final(self)@, old(self)@, rhs.terms(), F::modulus()),
    {
        *self = self.plus(&rhs.into_constraint());
    }

    /// Subtracts a constraint in place.
    pub fn sub_assign<V: Operand<F>>(&mut self, rhs: V)
        ensures
            is_difference(final(self)@, old(self)@, rhs.terms(), F::modulus()),
    {
        *self = self.minus(&rhs.into_constraint());
    }

    /// Multiplies with a constraint in place.
    pub fn mul_assign<V: Operand<F>>(&mut self, rhs: V)
        requires
            product_fits(old(self)@, rhs.terms()),
        ensures
            is_normal_form(
                final(self)@,
                product_terms(old(self)@, rhs.terms()),
                F::modulus(),
            ),
    {
        *self = self.times(&rhs.into_constraint());
    }

    /// Divides by a constraint in place. The constraint must have exactly one monomial and must not
    /// be zero.
    pub fn div_assign<V: Operand<F>>(&mut self, rhs: V)
        requires
            division_fits(old(self)@, rhs.terms(), F::modulus()),
        ensures
            is_normal_form(
                final(self)@,
                product_terms(old(self)@, signed_power_terms(rhs.terms(), -1, F::modulus())),
                F::modulus(),
            ),
    {
        *self = self.divided_by(&rhs.into_constraint());
    }

    /// We use the XOR operator to actually implement exponentiation. For example, if `x` is a
    /// `Constraint` instance (representing a single variable) then `x ^ 5` means x raised to 5.
    ///
    /// Negative exponents are supported and they actually perform modular inversion.
    ///
    /// WARNING: in Rust the circumflex operator `^` has lower precedence than the arithmetic
    /// operators `+`, `-`, `*`, and `/`, so for example `x + y ^ 2` actually means `(x + y) ^ 2`.
    /// That's counterintuitive but unfortunately Rust doesn't provide a proper power operation, and
    /// exponentiation is often necessary when defining PLONK constraints. Make sure to always
    /// parenthesize accordingly, eg. `x + (y ^ 2)`.
    pub fn bitxor_assign(&mut self, rhs: isize)
        requires
            rhs < 0 ==> old(self)@.len() == 1,
            power_fits(old(self)@, rhs as int),
        ensures
            is_normal_form(
                final(self)@,
                signed_power_terms(old(self)@, rhs as int, F::modulus()),
                F::modulus(),
            ),
    {
        *self = self.power(rhs);
    }

    /// Adds up a list of constraints.
    pub fn sum(constraints: Vec<Constraint<F>>) -> (ret: Constraint<F>)
        ensures
            is_normal_form(ret@, all_terms(constraints@), F::modulus()),
    {
        let ghost p = F::modulus();
        let mut result: Constraint<F> = Constraint::nop();
        let mut i: usize = 0;
        proof {
            F::lemma_modulus();
            use_type_invariant(&result);
            assert(constraints@.subrange(0, 0) =~= seq![]);
            lemma_normal_form_self(result@, p);
        }
        while i < constraints.len()
            invariant
                i <= constraints.len(),
                p == F::modulus(),
                p > 0,
                is_normal_form(result@, all_terms(constraints@.subrange(0, i as int)), p),
            decreases constraints.len() - i,
        {
            let ghost before = result@;
            result = result.plus(&constraints[i]);
            proof {
                let a = all_terms(constraints@.subrange(0, i as int));
                let b = constraints@[i as int]@;
                let next = constraints@.subrange(0, i + 1);
                assert(next.drop_last() =~= constraints@.subrange(0, i as int));
                assert(next.last() == constraints@[i as int]);
                assert forall|m: Mono| #[trigger] coeff(result@, m) == coeff(all_terms(next), m) % p by {
                    lemma_coeff_concat(a, b, m);
                    assert(coeff(before, m) == coeff(a, m) % p);
                    lemma_mod_add(coeff(a, m), coeff(b, m), p);
                }
            }
            i += 1;
        }
        proof {
            assert(constraints@.subrange(0, constraints@.len() as int) =~= constraints@);
        }
        result
    }

    /// Multiplies a list of constraints.
    pub fn product(constraints: Vec<Constraint<F>>) -> (ret: Constraint<F>)
        requires
            products_fit(constraints@),
        ensures
            is_normal_form(ret@, all_product(constraints@), F::modulus()),
    {
        let ghost p = F::modulus();
        let mut result: Constraint<F> = Constraint::make_const(crate::field::one::<F>());
        let mut i: usize = 0;
        proof {
            F::lemma_modulus();
            use_type_invariant(&result);
            assert(constraints@.subrange(0, 0) =~= seq![]);
            assert(result@ =~= all_product(constraints@.subrange(0, 0)));
            lemma_normal_form_self(result@, p);
        }
        while i < constraints.len()
            invariant
                i <= constraints.len(),
                p == F::modulus(),
                p > 0,
                products_fit(constraints@),
                is_normal_form(result@, all_product(constraints@.subrange(0, i as int)), p),
            decreases constraints.len() - i,
        {
            let ghost before = result@;
            let ghost b = constraints@[i as int]@;
            let ghost a = all_product(constraints@.subrange(0, i as int));
            proof {
                assert(is_partial_product(before, constraints@, i as int));
            }
            let factor = &constraints[i];
            proof {
                use_type_invariant(factor);
                use_type_invariant(&result);
            }
            result = result.times(factor);
            proof {
                use_type_invariant(&result);
                let next = constraints@.subrange(0, i + 1);
                assert(next.drop_last() =~= constraints@.subrange(0, i as int));
                assert(next.last() == constraints@[i as int]);
                lemma_same_of_normal(before, a, p);
                lemma_same_of_normal(result@, product_terms(before, b), p);
                assert(same_terms(b, b, p));
                lemma_product_same_terms(before, a, b, b, p);
                assert forall|m: Mono| #[trigger]
                    coeff(result@, m) == coeff(all_product(next), m) % p by {
                    assert(coeff(product_terms(before, b), m) % p == coeff(product_terms(a, b), m)
                        % p);
                }
            }
            i += 1;
        }
        proof {
            assert(constraints@.subrange(0, constraints@.len() as int) =~= constraints@);
        }
        result
    }
}

/// The terms of all constraints in a list.
pub open spec fn all_terms<F: Field>(constraints: Seq<Constraint<F>>) -> Terms
    decreases constraints.len(),
{
    if constraints.len() == 0 {
        seq![]
    } else {
        all_terms(constraints.drop_last()) + constraints.last()@
    }
}

/// The terms of the product of all constraints in a list.
pub open spec fn all_product<F: Field>(constraints: Seq<Constraint<F>>) -> Terms
    decreases constraints.len(),
{
    if constraints.len() == 0 {
        const_terms(1)
    } else {
        product_terms(all_product(constraints.drop_last()), constraints.last()@)
    }
}

/// `r` is the product of the first `n` constraints in a list.
pub open spec fn is_partial_product<F: Field>(
    r: Terms,
    constraints: Seq<Constraint<F>>,
    n: int,
) -> bool {
    is_normal_form(r, all_product(constraints.subrange(0, n)), F::modulus())
}

/// The exponents of the product of the constraints before each constraint in a list and that
/// constraint are in the range of [`isize`].
pub open spec fn products_fit<F: Field>(constraints: Seq<Constraint<F>>) -> bool {
    forall|r: Terms, n: int|
        0 <= n < constraints.len() && #[trigger] is_partial_product(r, constraints, n)
            ==> product_fits(r, constraints[n]@)
}

/// Short-hand for [`Constraint::make_var`].
pub fn var<F: Field>(column_index: usize) -> (ret: Constraint<F>)
    ensures
        ret@ == var_terms(Variable { column_index, rotation: 0 }),
{
    Constraint::make_var(column_index, 0)
}

/// Short-hand for [`Constraint::make_var`] with a rotation.
pub fn rvar<F: Field>(column_index: usize, rotation: isize) -> (ret: Constraint<F>)
    ensures
        ret@ == var_terms(Variable { column_index, rotation }),
{
    Constraint::make_var(column_index, rotation)
}

/// Short-hand for [`Constraint::make_const`].
pub fn make_const<F: Field>(value: F) -> (ret: Constraint<F>)
    ensures
        ret@ == const_terms(value.value()),
{
    Constraint::make_const(value)
}

} // verus!
