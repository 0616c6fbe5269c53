//! Laws about constraint expressions.
use crate::algebra::{
    lemma_mono_pow_exponent, lemma_mono_pow_wf, lemma_power_monos_wf, lemma_product_associates,
    lemma_product_commutes, lemma_product_member, lemma_product_one, lemma_product_same_terms,
    mono_pow,
};
use crate::arith::{
    inverse, invertible, is_inverse, lemma_cong_mul, lemma_cong_sub, lemma_mod_add, lemma_mod_mul,
    lemma_mod_sub, lemma_small, mod_pow,
};
use crate::evaluation::{
    lemma_mono_value_mul, lemma_value_concat, lemma_value_product, lemma_value_same_terms,
    mono_defined, terms_defined,
};
use crate::expr::{
    canonical, is_canonical_form, is_difference, is_normal_form, is_sum, shiftable,
    signed_power_terms,
};
use crate::field::Field;
use crate::terms::{
    clearing, coeff, exponent, is_clearing, lemma_coeff_bounds, lemma_coeff_concat,
    lemma_coeff_single, lemma_exponent_absent, lemma_exponent_at, lemma_mono_mul_exponent,
    lemma_mono_mul_wf, lemma_mono_unique, lemma_terms_unique, mono_has, mono_mul, mono_value,
    mono_wf, monos_wf, power_terms, product_terms, same_terms, scale_terms, shift_terms, terms_have,
    terms_value, terms_wf, weighted_sum, Mono, Terms,
};
use crate::variable::{shift_variable, Variable};
use vstd::arithmetic::div_mod::lemma_mod_twice;
use vstd::arithmetic::power::{lemma_pow0, lemma_pow1, lemma_pow_adds, pow};
use vstd::prelude::*;

verus! {

/// Normal forms are unique: two expressions in normal form with congruent coefficients are the same.
pub proof fn law_normal_form_unique(a: Terms, b: Terms, t: Terms, p: int)
    requires
        p > 0,
        is_normal_form(a, t, p),
        is_normal_form(b, t, p),
    ensures
        a == b,
{
    assert forall|m: Mono| #[trigger] coeff(a, m) == coeff(b, m) by {
        assert(coeff(a, m) == coeff(t, m) % p);
        assert(coeff(b, m) == coeff(t, m) % p);
    }
    lemma_terms_unique(a, b, p);
}

/// The normal forms of expressions with congruent coefficients are the same.
proof fn lemma_normal_forms_agree(a: Terms, b: Terms, s: Terms, t: Terms, p: int)
    requires
        p > 0,
        is_normal_form(a, s, p),
        is_normal_form(b, t, p),
        same_terms(s, t, p),
    ensures
        a == b,
{
    assert forall|m: Mono| #[trigger] coeff(a, m) == coeff(b, m) by {
        assert(coeff(a, m) == coeff(s, m) % p);
        assert(coeff(b, m) == coeff(t, m) % p);
        assert(coeff(s, m) % p == coeff(t, m) % p);
    }
    lemma_terms_unique(a, b, p);
}

/// A normal form has the coefficients of the terms it comes from.
pub proof fn lemma_normal_form_same(r: Terms, t: Terms, p: int)
    requires
        p > 0,
        is_normal_form(r, t, p),
    ensures
        same_terms(r, t, p),
{
    assert forall|m: Mono| #[trigger] coeff(r, m) % p == coeff(t, m) % p by {
        assert(coeff(r, m) == coeff(t, m) % p);
        lemma_mod_twice(coeff(t, m), p);
    }
}

/// The sum of two expressions does not depend on their order.
pub proof fn law_sum_commutes(a: Terms, b: Terms, r: Terms, s: Terms, p: int)
    requires
        p > 0,
        is_sum(r, a, b, p),
        is_sum(s, b, a, p),
    ensures
        r == s,
{
    assert forall|m: Mono| #[trigger] coeff(r, m) == coeff(s, m) by {
        assert(coeff(r, m) == (coeff(a, m) + coeff(b, m)) % p);
        assert(coeff(s, m) == (coeff(b, m) + coeff(a, m)) % p);
    }
    lemma_terms_unique(r, s, p);
}

/// The sum of three expressions does not depend on the grouping: `(a + b) + c == a + (b + c)`.
pub proof fn law_sum_associates(
    a: Terms,
    b: Terms,
    c: Terms,
    ab: Terms,
    bc: Terms,
    r: Terms,
    s: Terms,
    p: int,
)
    requires
        p > 0,
        is_sum(ab, a, b, p),
        is_sum(r, ab, c, p),
        is_sum(bc, b, c, p),
        is_sum(s, a, bc, p),
    ensures
        r == s,
{
    assert forall|m: Mono| #[trigger] coeff(r, m) == coeff(s, m) by {
        let (x, y, z) = (coeff(a, m), coeff(b, m), coeff(c, m));
        assert(coeff(ab, m) == (x + y) % p);
        assert(coeff(bc, m) == (y + z) % p);
        assert(coeff(r, m) == (coeff(ab, m) + z) % p);
        assert(coeff(s, m) == (x + coeff(bc, m)) % p);
        lemma_mod_add(x + y, z, p);
        lemma_mod_add(x, y + z, p);
    }
    lemma_terms_unique(r, s, p);
}

/// Adding an expression and subtracting it again gives back the same expression.
pub proof fn law_difference_undoes_sum(a: Terms, b: Terms, s: Terms, r: Terms, p: int)
    requires
        p > 0,
        terms_wf(a, p),
        is_sum(s, a, b, p),
        is_difference(r, s, b, p),
    ensures
        r == a,
{
    assert forall|m: Mono| #[trigger] coeff(r, m) == coeff(a, m) by {
        let (x, y) = (coeff(a, m), coeff(b, m));
        assert(coeff(s, m) == (x + y) % p);
        assert(coeff(r, m) == (coeff(s, m) - y) % p);
        lemma_mod_sub(x + y, y, p);
        lemma_coeff_bounds(a, m, p);
        lemma_small(x, p);
    }
    lemma_terms_unique(r, a, p);
}

/// The product of two expressions does not depend on their order.
pub proof fn law_product_commutes(a: Terms, b: Terms, r: Terms, s: Terms, p: int)
    requires
        p > 0,
        terms_wf(a, p),
        terms_wf(b, p),
        is_normal_form(r, product_terms(a, b), p),
        is_normal_form(s, product_terms(b, a), p),
    ensures
        r == s,
{
    lemma_product_commutes(a, b, p);
    lemma_normal_forms_agree(r, s, product_terms(a, b), product_terms(b, a), p);
}

/// The product of three expressions does not depend on the grouping: `(a * b) * c == a * (b * c)`.
pub proof fn law_product_associates(
    a: Terms,
    b: Terms,
    c: Terms,
    ab: Terms,
    bc: Terms,
    r: Terms,
    s: Terms,
    p: int,
)
    requires
        p > 0,
        terms_wf(a, p),
        terms_wf(b, p),
        terms_wf(c, p),
        is_normal_form(ab, product_terms(a, b), p),
        is_normal_form(r, product_terms(ab, c), p),
        is_normal_form(bc, product_terms(b, c), p),
        is_normal_form(s, product_terms(a, bc), p),
    ensures
        r == s,
{
    let left = product_terms(product_terms(a, b), c);
    let right = product_terms(a, product_terms(b, c));
    lemma_normal_form_same(ab, product_terms(a, b), p);
    lemma_normal_form_same(bc, product_terms(b, c), p);
    lemma_product_same_terms(ab, product_terms(a, b), c, c, p);
    lemma_product_same_terms(a, a, bc, product_terms(b, c), p);
    lemma_product_associates(a, b, c, p);
    assert(same_terms(product_terms(ab, c), product_terms(a, bc), p)) by {
        assert forall|m: Mono| #[trigger]
            coeff(product_terms(ab, c), m) % p == coeff(product_terms(a, bc), m) % p by {
            assert(coeff(product_terms(ab, c), m) % p == coeff(left, m) % p);
            assert(coeff(left, m) % p == coeff(right, m) % p);
            assert(coeff(product_terms(a, bc), m) % p == coeff(right, m) % p);
        }
    }
    lemma_normal_forms_agree(r, s, product_terms(ab, c), product_terms(a, bc), p);
}

/// The coefficients of a product with a sum of terms.
proof fn lemma_product_concat(a: Terms, b: Terms, c: Terms)
    ensures
        product_terms(a + b, c) == product_terms(a, c) + product_terms(b, c),
    decreases b.len(),
{
    if b.len() == 0 {
        assert(a + b =~= a);
        assert(product_terms(a, c) + product_terms(b, c) =~= product_terms(a, c));
    } else {
        assert((a + b).drop_last() =~= a + b.drop_last());
        assert((a + b).last() == b.last());
        lemma_product_concat(a, b.drop_last(), c);
        let x = b.last();
        assert(product_terms(a, c) + (product_terms(b.drop_last(), c) + scale_terms(c, x.0, x.1))
            =~= (product_terms(a, c) + product_terms(b.drop_last(), c)) + scale_terms(c, x.0, x.1));
    }
}

/// Multiplying a sum is the same as adding products: `(a + b) * c == a * c + b * c`.
pub proof fn law_product_distributes(
    a: Terms,
    b: Terms,
    c: Terms,
    sum: Terms,
    ac: Terms,
    bc: Terms,
    r: Terms,
    s: Terms,
    p: int,
)
    requires
        p > 0,
        is_sum(sum, a, b, p),
        is_normal_form(r, product_terms(sum, c), p),
        is_normal_form(ac, product_terms(a, c), p),
        is_normal_form(bc, product_terms(b, c), p),
        is_sum(s, ac, bc, p),
    ensures
        r == s,
{
    assert(same_terms(sum, a + b, p)) by {
        assert forall|m: Mono| #[trigger] coeff(sum, m) % p == coeff(a + b, m) % p by {
            lemma_coeff_concat(a, b, m);
            assert(coeff(sum, m) == (coeff(a, m) + coeff(b, m)) % p);
            lemma_mod_twice(coeff(a, m) + coeff(b, m), p);
        }
    }
    lemma_product_same_terms(sum, a + b, c, c, p);
    lemma_product_concat(a, b, c);
    assert forall|m: Mono| #[trigger] coeff(r, m) == coeff(s, m) by {
        let (x, y) = (coeff(product_terms(a, c), m), coeff(product_terms(b, c), m));
        lemma_coeff_concat(product_terms(a, c), product_terms(b, c), m);
        assert(coeff(r, m) == coeff(product_terms(sum, c), m) % p);
        assert(coeff(product_terms(sum, c), m) % p == coeff(product_terms(a + b, c), m) % p);
        assert(coeff(ac, m) == x % p);
        assert(coeff(bc, m) == y % p);
        assert(coeff(s, m) == (coeff(ac, m) + coeff(bc, m)) % p);
        lemma_mod_add(x, y, p);
    }
    lemma_terms_unique(r, s, p);
}

/// The value of a sum is the sum of the values.
pub proof fn law_sum_value(r: Terms, a: Terms, b: Terms, s: spec_fn(Variable) -> int, p: int)
    requires
        p > 0,
        is_sum(r, a, b, p),
    ensures
        terms_value(r, s, p) % p == (terms_value(a, s, p) + terms_value(b, s, p)) % p,
{
    assert(same_terms(r, a + b, p)) by {
        assert forall|m: Mono| #[trigger] coeff(r, m) % p == coeff(a + b, m) % p by {
            lemma_coeff_concat(a, b, m);
            assert(coeff(r, m) == (coeff(a, m) + coeff(b, m)) % p);
            lemma_mod_twice(coeff(a, m) + coeff(b, m), p);
        }
    }
    lemma_value_same_terms(r, a + b, s, p);
    lemma_value_concat(a, b, s, p);
}

/// The value of a difference is the difference of the values.
pub proof fn law_difference_value(r: Terms, a: Terms, b: Terms, s: spec_fn(Variable) -> int, p: int)
    requires
        p > 0,
        is_difference(r, a, b, p),
    ensures
        terms_value(r, s, p) % p == (terms_value(a, s, p) - terms_value(b, s, p)) % p,
{
    // `r + b` and `a` have the same coefficients
    assert(same_terms(r + b, a, p)) by {
        assert forall|m: Mono| #[trigger] coeff(r + b, m) % p == coeff(a, m) % p by {
            lemma_coeff_concat(r, b, m);
            let (x, y) = (coeff(a, m), coeff(b, m));
            assert(coeff(r, m) == (x - y) % p);
            lemma_mod_add(x - y, y, p);
        }
    }
    lemma_value_same_terms(r + b, a, s, p);
    lemma_value_concat(r, b, s, p);
    let (u, v, w) = (terms_value(r, s, p), terms_value(a, s, p), terms_value(b, s, p));
    lemma_cong_sub(u + w, v, w, w, p);
}

/// The value of a product is the product of the values, wherever those are defined.
pub proof fn law_product_value(r: Terms, a: Terms, b: Terms, s: spec_fn(Variable) -> int, p: int)
    requires
        p > 1,
        is_normal_form(r, product_terms(a, b), p),
        terms_defined(a, s, p),
        terms_defined(b, s, p),
    ensures
        terms_value(r, s, p) % p == (terms_value(a, s, p) * terms_value(b, s, p)) % p,
{
    lemma_normal_form_same(r, product_terms(a, b), p);
    lemma_value_same_terms(r, product_terms(a, b), s, p);
    lemma_value_product(a, b, s, p);
}

/// Shifting the columns of the variables and shifting them back gives back the same expression.
pub proof fn law_remap_round_trip(t: Terms, offset: int)
    requires
        shiftable(t, 0),
        shiftable(t, offset),
    ensures
        shift_terms(shift_terms(t, offset), -offset) == t,
{
    let r = shift_terms(shift_terms(t, offset), -offset);
    assert forall|i: int| 0 <= i < t.len() implies #[trigger] r[i] == t[i] by {
        let (m, back) = (t[i].0, r[i].0);
        assert forall|j: int| 0 <= j < m.len() implies #[trigger] back[j] == m[j] by {
            let v = m[j].0;
            assert(mono_has(m, v));
            assert(terms_have(t, v));
            assert(shift_variable(shift_variable(v, offset), -offset) == v);
        }
        assert(back =~= m);
    }
    assert(r =~= t);
}

/// Variables that are cleared have a negative exponent somewhere.
proof fn lemma_cleared_variable(t: Terms, v: Variable)
    requires
        clearing(t, v) != 0,
    ensures
        exists|i: int| 0 <= i < t.len() && #[trigger] exponent(t[i].0, v) < 0,
    decreases t.len(),
{
    lemma_clearing_nonnegative(t, v);
    let n = t.len() - 1;
    lemma_clearing_nonnegative(t.drop_last(), v);
    if clearing(t.drop_last(), v) < -exponent(t.last().0, v) {
        assert(exponent(t[n].0, v) < 0);
    } else {
        lemma_cleared_variable(t.drop_last(), v);
        let i = choose|i: int|
            0 <= i < t.drop_last().len() && #[trigger] exponent(t.drop_last()[i].0, v) < 0;
        assert(exponent(t[i].0, v) < 0);
    }
}

/// The cleared denominator of a constraint is invertible wherever the constraint is defined.
proof fn lemma_clearing_invertible(k: Mono, t: Terms, s: spec_fn(Variable) -> int, p: int)
    requires
        p > 1,
        is_clearing(k, t),
        terms_defined(t, s, p),
        monos_wf(t),
    ensures
        invertible(mono_value(k, s, p), p),
{
    let n = mono_pow(k, -1);
    assert forall|j: int| 0 <= j < k.len() implies (#[trigger] k[j]).1 > 0 && invertible(
        s(k[j].0),
        p,
    ) by {
        let v = k[j].0;
        lemma_exponent_at(k, j);
        lemma_clearing_nonnegative(t, v);
        assert(exponent(k, v) == clearing(t, v));
        lemma_cleared_variable(t, v);
        let i = choose|i: int| 0 <= i < t.len() && #[trigger] exponent(t[i].0, v) < 0;
        let m = t[i].0;
        assert(mono_defined(t[i].0, s, p));
        if mono_has(m, v) {
            let x = choose|x: int| 0 <= x < m.len() && (#[trigger] m[x]).0 == v;
            lemma_exponent_at(m, x);
            assert(m[x].1 < 0);
        } else {
            lemma_exponent_absent(m, v);
        }
    }
    assert(mono_defined(k, s, p));
    assert forall|j: int| 0 <= j < n.len() implies (#[trigger] n[j]).1 >= 0 || invertible(
        s(n[j].0),
        p,
    ) by {
        assert(k[j].1 > 0);
    }
    assert(mono_defined(n, s, p));
    lemma_mono_pow_wf(k, -1);
    lemma_mono_mul_wf(k, n);
    let one = mono_mul(k, n);
    let empty = Seq::<(Variable, int)>::empty();
    assert forall|v: Variable| exponent(one, v) == exponent(empty, v) by {
        lemma_mono_mul_exponent(k, n, v);
        lemma_mono_pow_exponent(k, -1, v);
    }
    lemma_mono_unique(one, empty);
    lemma_mono_value_mul(k, n, s, p);
    assert(mono_value(empty, s, p) == 1);
    lemma_small(1, p);
    lemma_mod_mul(mono_value(k, s, p), mono_value(n, s, p), p);
    assert(is_inverse(mono_value(k, s, p), mono_value(n, s, p) % p, p));
}

/// The canonical form of a constraint has the value of the constraint times that of the cleared
/// denominator, wherever the constraint is defined. The cleared denominator is invertible there, so
/// the canonical form is satisfied if and only if the constraint is.
pub proof fn law_canonical_form_value(
    r: Terms,
    t: Terms,
    k: Mono,
    s: spec_fn(Variable) -> int,
    p: int,
)
    requires
        p > 1,
        is_canonical_form(r, t, p),
        is_clearing(k, t),
        monos_wf(t),
        terms_defined(t, s, p),
    ensures
        terms_value(r, s, p) % p == (terms_value(t, s, p) * mono_value(k, s, p)) % p,
        invertible(mono_value(k, s, p), p),
        terms_value(r, s, p) % p == 0 <==> terms_value(t, s, p) % p == 0,
{
    lemma_clearing_invertible(k, t, s, p);
    let clear = seq![(k, 1int)];
    assert(is_normal_form(r, product_terms(t, clear), p));
    assert(terms_defined(clear, s, p)) by {
        assert forall|i: int| 0 <= i < k.len() implies (#[trigger] k[i]).1 >= 0 by {
            lemma_exponent_at(k, i);
            lemma_clearing_nonnegative(t, k[i].0);
        }
    }
    law_product_value(r, t, clear, s, p);
    assert(clear.drop_last() =~= seq![]);
    reveal_with_fuel(weighted_sum, 2);
    let (x, y) = (terms_value(t, s, p), mono_value(k, s, p));
    assert(terms_value(clear, s, p) == 1 * y);
    lemma_small(0, p);
    lemma_small(1, p);
    if x % p == 0 {
        lemma_cong_mul(x, 0, y, y, p);
        assert(0 * y == 0);
    }
    if invertible(y, p) && (x * y) % p == 0 {
        let i = choose|i: int| is_inverse(y, i, p);
        assert(is_inverse(y, i, p));
        lemma_cong_mul(x * y, 0, i, i, p);
        assert(0 * i == 0);
        assert((x * y) * i == x * (y * i)) by (nonlinear_arith);
        lemma_cong_mul(x, x, y * i, 1, p);
        assert(x * 1 == x);
    }
}

/// Cleared exponents are not negative.
proof fn lemma_clearing_nonnegative(t: Terms, v: Variable)
    ensures
        clearing(t, v) >= 0,
    decreases t.len(),
{
    if t.len() > 0 {
        lemma_clearing_nonnegative(t.drop_last(), v);
    }
}

/// Where two expressions are defined, the terms of their product are defined too.
pub proof fn lemma_product_defined(a: Terms, b: Terms, s: spec_fn(Variable) -> int, p: int)
    requires
        monos_wf(a),
        monos_wf(b),
        terms_defined(a, s, p),
        terms_defined(b, s, p),
    ensures
        terms_defined(product_terms(a, b), s, p),
{
    let r = product_terms(a, b);
    assert forall|i: int| 0 <= i < r.len() implies mono_defined((#[trigger] r[i]).0, s, p) by {
        lemma_product_member(a, b, i);
        let (x, y) = choose|x: int, y: int|
            0 <= x < a.len() && 0 <= y < b.len() && r[i].0 == #[trigger] mono_mul(a[x].0, b[y].0);
        let (m, n) = (a[x].0, b[y].0);
        let k = mono_mul(m, n);
        assert(mono_wf(m) && mono_wf(n));
        lemma_mono_mul_wf(m, n);
        assert(mono_defined(m, s, p) && mono_defined(n, s, p));
        assert forall|j: int| 0 <= j < k.len() implies (#[trigger] k[j]).1 >= 0 || invertible(
            s(k[j].0),
            p,
        ) by {
            let v = k[j].0;
            lemma_exponent_at(k, j);
            lemma_mono_mul_exponent(m, n, v);
            lemma_negative_exponent(m, v, s, p);
            lemma_negative_exponent(n, v, s, p);
        }
    }
}

/// Variables with a negative exponent are invertible.
proof fn lemma_negative_exponent(m: Mono, v: Variable, s: spec_fn(Variable) -> int, p: int)
    requires
        mono_wf(m),
        mono_defined(m, s, p),
    ensures
        exponent(m, v) >= 0 || invertible(s(v), p),
{
    if mono_has(m, v) {
        let i = choose|i: int| 0 <= i < m.len() && (#[trigger] m[i]).0 == v;
        lemma_exponent_at(m, i);
    } else {
        lemma_exponent_absent(m, v);
    }
}

/// The values and the definedness of powers.
pub proof fn lemma_power_value(t: Terms, n: nat, s: spec_fn(Variable) -> int, p: int)
    requires
        p > 1,
        monos_wf(t),
        terms_defined(t, s, p),
    ensures
        terms_defined(power_terms(t, n), s, p),
        terms_value(power_terms(t, n), s, p) % p == pow(terms_value(t, s, p), n) % p,
    decreases n,
{
    let x = terms_value(t, s, p);
    if n == 0 {
        lemma_pow0(x);
        let one = power_terms(t, 0);
        assert(one.drop_last() =~= seq![]);
        reveal_with_fuel(weighted_sum, 2);
        assert(terms_value(one, s, p) == 1);
    } else {
        let k = (n - 1) as nat;
        lemma_power_value(t, k, s, p);
        lemma_power_monos_wf(t, k);
        lemma_product_defined(power_terms(t, k), t, s, p);
        lemma_value_product(power_terms(t, k), t, s, p);
        lemma_cong_mul(terms_value(power_terms(t, k), s, p), pow(x, k), x, x, p);
        lemma_pow_adds(x, k, 1);
        lemma_pow1(x);
    }
}

/// The value of a power is the power of the value, wherever that is defined.
pub proof fn law_power_value(r: Terms, t: Terms, n: nat, s: spec_fn(Variable) -> int, p: int)
    requires
        p > 1,
        terms_wf(t, p),
        is_normal_form(r, power_terms(t, n), p),
        terms_defined(t, s, p),
    ensures
        terms_value(r, s, p) % p == pow(terms_value(t, s, p), n) % p,
{
    lemma_power_value(t, n, s, p);
    lemma_normal_form_same(r, power_terms(t, n), p);
    lemma_value_same_terms(r, power_terms(t, n), s, p);
}

/// Dividing by a single term and multiplying with it again gives back the same expression.
pub proof fn law_product_undoes_division(a: Terms, b: Terms, q: Terms, r: Terms, p: int)
    requires
        p > 1,
        terms_wf(a, p),
        terms_wf(b, p),
        b.len() == 1,
        invertible(b[0].1, p),
        is_normal_form(q, product_terms(a, signed_power_terms(b, -1, p)), p),
        is_normal_form(r, product_terms(q, b), p),
    ensures
        r == a,
{
    let (m, c) = b[0];
    let inv = signed_power_terms(b, -1, p);
    let (k, d) = inv[0];
    assert(inv =~= seq![(mono_pow(m, -1), mod_pow(c, -1, p))]);
    lemma_mono_pow_wf(m, -1);
    assert(monos_wf(inv));
    let unit = product_terms(inv, b);
    let one = power_terms(a, 0);
    let empty = Seq::<(Variable, int)>::empty();
    // the monomials cancel
    assert(mono_mul(k, m) == empty) by {
        lemma_mono_mul_wf(k, m);
        assert forall|v: Variable| exponent(mono_mul(k, m), v) == exponent(empty, v) by {
            lemma_mono_mul_exponent(k, m, v);
            lemma_mono_pow_exponent(m, -1, v);
            assert(exponent(m, v) * -1 == -exponent(m, v));
        }
        lemma_mono_unique(mono_mul(k, m), empty);
    }
    // the coefficients cancel
    lemma_small(1, p);
    assert((d * c) % p == 1) by {
        let i = inverse(c, p);
        assert(is_inverse(c, i, p));
        lemma_pow1(i);
        lemma_small(i, p);
        assert(d == i);
        assert(d * c == c * i) by (nonlinear_arith)
            requires
                d == i,
        ;
    }
    assert(unit =~= seq![(empty, d * c)]) by {
        assert(inv.drop_last() =~= seq![]);
        reveal_with_fuel(product_terms, 2);
        assert(b =~= seq![(m, c)]);
        assert(scale_terms(b, k, d) =~= seq![(mono_mul(k, m), d * c)]);
        assert(unit =~= seq![] + scale_terms(b, k, d));
    }
    assert(same_terms(unit, one, p)) by {
        assert forall|x: Mono| #[trigger] coeff(unit, x) % p == coeff(one, x) % p by {
            lemma_coeff_single((empty, d * c), x);
            lemma_coeff_single((empty, 1int), x);
        }
    }
    // q * b == (a * inv) * b == a * (inv * b) == a * 1 == a
    let ai = product_terms(a, inv);
    lemma_normal_form_same(q, ai, p);
    lemma_product_same_terms(q, ai, b, b, p);
    lemma_product_associates(a, inv, b, p);
    lemma_product_same_terms(a, a, unit, one, p);
    lemma_power_monos_wf(a, 0);
    lemma_product_commutes(a, one, p);
    lemma_product_one(a, p);
    assert forall|x: Mono| #[trigger] coeff(r, x) == coeff(a, x) by {
        assert(coeff(r, x) == coeff(product_terms(q, b), x) % p);
        assert(coeff(product_terms(q, b), x) % p == coeff(product_terms(ai, b), x) % p);
        assert(coeff(product_terms(ai, b), x) % p == coeff(product_terms(a, unit), x) % p);
        assert(coeff(product_terms(a, unit), x) % p == coeff(product_terms(a, one), x) % p);
        assert(coeff(product_terms(a, one), x) % p == coeff(product_terms(one, a), x) % p);
        lemma_coeff_bounds(a, x, p);
        lemma_small(coeff(a, x), p);
    }
    lemma_terms_unique(r, a, p);
}

/// There is nothing to clear in a canonical expression.
proof fn lemma_nothing_to_clear(t: Terms, v: Variable)
    requires
        canonical(t),
        monos_wf(t),
    ensures
        clearing(t, v) == 0,
    decreases t.len(),
{
    if t.len() > 0 {
        let init = t.drop_last();
        assert forall|i: int, j: int| 0 <= i < init.len() && 0 <= j < init[i].0.len() implies (
        #[trigger] init[i].0[j]).1 >= 0 by {
            assert(t[i].0[j].1 >= 0);
        }
        assert(monos_wf(init)) by {
            assert forall|i: int| 0 <= i < init.len() implies mono_wf((#[trigger] init[i]).0) by {
                assert(init[i] == t[i]);
            }
        }
        lemma_nothing_to_clear(init, v);
        let k = t.len() - 1;
        let m = t[k].0;
        assert(mono_wf(m));
        if mono_has(m, v) {
            let j = choose|j: int| 0 <= j < m.len() && (#[trigger] m[j]).0 == v;
            lemma_exponent_at(m, j);
            assert(t[k].0[j].1 >= 0);
        } else {
            lemma_exponent_absent(m, v);
        }
    }
}

/// A canonical constraint is its own canonical form.
pub proof fn law_canonical_form_of_canonical(r: Terms, t: Terms, p: int)
    requires
        p > 0,
        terms_wf(t, p),
        canonical(t),
        is_canonical_form(r, t, p),
    ensures
        r == t,
{
    let k = choose|k: Mono| is_clearing(k, t);
    assert(is_clearing(k, t));
    let empty = Seq::<(Variable, int)>::empty();
    assert forall|v: Variable| exponent(k, v) == exponent(empty, v) by {
        lemma_nothing_to_clear(t, v);
        assert(exponent(k, v) == clearing(t, v));
    }
    lemma_mono_unique(k, empty);
    let one = power_terms(t, 0);
    assert(seq![(k, 1int)] =~= one);
    lemma_power_monos_wf(t, 0);
    lemma_product_commutes(t, one, p);
    lemma_product_one(t, p);
    assert(is_normal_form(r, product_terms(t, one), p));
    assert forall|m: Mono| #[trigger] coeff(r, m) == coeff(t, m) by {
        assert(coeff(r, m) == coeff(product_terms(t, one), m) % p);
        assert(coeff(product_terms(t, one), m) % p == coeff(product_terms(one, t), m) % p);
        lemma_coeff_bounds(t, m, p);
        lemma_small(coeff(t, m), p);
    }
    lemma_terms_unique(r, t, p);
}

/// Canonicalizing twice is the same as canonicalizing once.
pub proof fn law_canonicalize_is_idempotent(r: Terms, s: Terms, t: Terms, p: int)
    requires
        p > 0,
        is_canonical_form(r, t, p),
        is_canonical_form(s, r, p),
    ensures
        s == r,
{
    let k = choose|k: Mono| is_clearing(k, t);
    assert(is_clearing(k, t));
    assert(is_normal_form(r, product_terms(t, seq![(k, 1int)]), p));
    law_canonical_form_of_canonical(s, r, p);
}

} // verus!
