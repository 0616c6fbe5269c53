//! How the value of an expression depends on its terms.
use crate::algebra::{
    lemma_weighted_concat, lemma_weighted_cong, lemma_weighted_factor, lemma_weighted_product,
    lemma_weighted_same_terms,
};
use crate::arith::{
    inverse, invertible, is_inverse, lemma_cong_mul, lemma_cong_pow, lemma_mod_mul, lemma_small,
    mod_pow,
};
use crate::terms::{
    mono_mul, mono_value, product_terms, same_terms, terms_value, weighted_sum, Mono, Terms,
};
use crate::variable::{var_less, Variable};
use vstd::arithmetic::div_mod::lemma_mod_twice;
use vstd::arithmetic::power::{lemma1_pow, lemma_pow0, lemma_pow_adds, lemma_pow_distributes, pow};
use vstd::prelude::*;

verus! {

/// The value of `m` is defined under `s`: variables with a negative exponent are invertible.
pub open spec fn mono_defined(m: Mono, s: spec_fn(Variable) -> int, p: int) -> bool {
    forall|i: int| 0 <= i < m.len() ==> (#[trigger] m[i]).1 >= 0 || invertible(s(m[i].0), p)
}

/// The value of `t` is defined under `s`: variables with a negative exponent are invertible.
pub open spec fn terms_defined(t: Terms, s: spec_fn(Variable) -> int, p: int) -> bool {
    forall|i: int| 0 <= i < t.len() ==> mono_defined((#[trigger] t[i]).0, s, p)
}

/// Powers of an invertible number and of its inverse cancel.
proof fn lemma_pow_cancel(x: int, k: nat, p: int)
    requires
        p > 1,
        invertible(x, p),
    ensures
        (pow(x, k) * pow(inverse(x, p), k)) % p == 1,
{
    let i = inverse(x, p);
    assert(is_inverse(x, i, p));
    lemma_pow_distributes(x, i, k);
    lemma_small(1, p);
    lemma_cong_pow(x * i, 1, k, p);
    lemma1_pow(k);
}

/// Adding exponents multiplies powers.
pub proof fn lemma_mod_pow_add(x: int, e1: int, e2: int, p: int)
    requires
        p > 1,
        (e1 >= 0 && e2 >= 0) || invertible(x, p),
    ensures
        mod_pow(x, e1 + e2, p) == (mod_pow(x, e1, p) * mod_pow(x, e2, p)) % p,
{
    if e1 >= 0 && e2 >= 0 {
        lemma_pow_adds(x, e1 as nat, e2 as nat);
        lemma_mod_mul(pow(x, e1 as nat), pow(x, e2 as nat), p);
    } else if e1 < 0 && e2 < 0 {
        let i = inverse(x, p);
        lemma_pow_adds(i, (-e1) as nat, (-e2) as nat);
        lemma_mod_mul(pow(i, (-e1) as nat), pow(i, (-e2) as nat), p);
    } else if e1 >= 0 {
        lemma_mod_pow_mixed(x, e1, e2, p);
    } else {
        lemma_mod_pow_mixed(x, e2, e1, p);
        assert(mod_pow(x, e1, p) * mod_pow(x, e2, p) == mod_pow(x, e2, p) * mod_pow(x, e1, p))
            by (nonlinear_arith);
    }
}

proof fn lemma_mod_pow_mixed(x: int, e1: int, e2: int, p: int)
    requires
        p > 1,
        invertible(x, p),
        e1 >= 0,
        e2 < 0,
    ensures
        mod_pow(x, e1 + e2, p) == (mod_pow(x, e1, p) * mod_pow(x, e2, p)) % p,
{
    let i = inverse(x, p);
    let k = (-e2) as nat;
    let n = e1 as nat;
    lemma_mod_mul(pow(x, n), pow(i, k), p);
    if e1 + e2 >= 0 {
        let d = (n - k) as nat;
        lemma_pow_adds(x, d, k);
        lemma_pow_cancel(x, k, p);
        let (u, v, w) = (pow(x, d), pow(x, k), pow(i, k));
        assert((u * v) * w == u * (v * w)) by (nonlinear_arith);
        lemma_mod_mul(u, v * w, p);
    } else {
        let d = (k - n) as nat;
        lemma_pow_adds(i, d, n);
        lemma_pow_cancel(x, n, p);
        let (u, v, w) = (pow(i, d), pow(i, n), pow(x, n));
        assert(w * (u * v) == u * (w * v)) by (nonlinear_arith);
        lemma_mod_mul(u, w * v, p);
    }
}

/// The value of a monomial is the value of its head times that of its tail.
proof fn lemma_mono_value_front(m: Mono, s: spec_fn(Variable) -> int, p: int)
    requires
        m.len() > 0,
    ensures
        mono_value(m, s, p) == mod_pow(s(m[0].0), m[0].1, p) * mono_value(m.drop_first(), s, p),
    decreases m.len(),
{
    let head = mod_pow(s(m[0].0), m[0].1, p);
    if m.len() == 1 {
        assert(m.drop_last() =~= Seq::<(Variable, int)>::empty());
        assert(m.drop_first() =~= Seq::<(Variable, int)>::empty());
        reveal_with_fuel(mono_value, 2);
    } else {
        let init = m.drop_last();
        lemma_mono_value_front(init, s, p);
        assert(init.drop_first() =~= m.drop_first().drop_last());
        assert(m.drop_first().last() == m.last());
        let mid = mono_value(init.drop_first(), s, p);
        let tail = mod_pow(s(m.last().0), m.last().1, p);
        assert((head * mid) * tail == head * (mid * tail)) by (nonlinear_arith);
    }
}

proof fn lemma_defined_front(m: Mono, s: spec_fn(Variable) -> int, p: int)
    requires
        m.len() > 0,
        mono_defined(m, s, p),
    ensures
        mono_defined(m.drop_first(), s, p),
        m[0].1 >= 0 || invertible(s(m[0].0), p),
{
    assert forall|i: int| 0 <= i < m.drop_first().len() implies (#[trigger] m.drop_first()[i]).1
        >= 0 || invertible(s(m.drop_first()[i].0), p) by {
        assert(m.drop_first()[i] == m[i + 1]);
    }
}

/// The value of a product of monomials is the product of their values.
pub proof fn lemma_mono_value_mul(a: Mono, b: Mono, s: spec_fn(Variable) -> int, p: int)
    requires
        p > 1,
        mono_defined(a, s, p),
        mono_defined(b, s, p),
    ensures
        mono_value(mono_mul(a, b), s, p) % p == (mono_value(a, s, p) * mono_value(b, s, p)) % p,
    decreases a.len() + b.len(),
{
    if a.len() == 0 || b.len() == 0 {
    } else {
        lemma_mono_value_front(a, s, p);
        lemma_mono_value_front(b, s, p);
        lemma_defined_front(a, s, p);
        lemma_defined_front(b, s, p);
        let ha = mod_pow(s(a[0].0), a[0].1, p);
        let hb = mod_pow(s(b[0].0), b[0].1, p);
        let ta = mono_value(a.drop_first(), s, p);
        let tb = mono_value(b.drop_first(), s, p);
        if var_less(a[0].0, b[0].0) {
            let r = mono_mul(a.drop_first(), b);
            lemma_mono_value_mul(a.drop_first(), b, s, p);
            lemma_mono_value_front(seq![a[0]] + r, s, p);
            assert((seq![a[0]] + r).drop_first() =~= r);
            lemma_cong_mul(ha, ha, mono_value(r, s, p), ta * (hb * tb), p);
            assert(ha * (ta * (hb * tb)) == (ha * ta) * (hb * tb)) by (nonlinear_arith);
        } else if var_less(b[0].0, a[0].0) {
            let r = mono_mul(a, b.drop_first());
            lemma_mono_value_mul(a, b.drop_first(), s, p);
            lemma_mono_value_front(seq![b[0]] + r, s, p);
            assert((seq![b[0]] + r).drop_first() =~= r);
            lemma_cong_mul(hb, hb, mono_value(r, s, p), (ha * ta) * tb, p);
            assert(hb * ((ha * ta) * tb) == (ha * ta) * (hb * tb)) by (nonlinear_arith);
        } else {
            assert(a[0].0 == b[0].0);
            let x = s(a[0].0);
            let r = mono_mul(a.drop_first(), b.drop_first());
            let h = mod_pow(x, a[0].1 + b[0].1, p);
            lemma_mono_value_mul(a.drop_first(), b.drop_first(), s, p);
            lemma_mod_pow_add(x, a[0].1, b[0].1, p);
            lemma_mod_twice(ha * hb, p);
            lemma_cong_mul(ha * hb, h, ta * tb, mono_value(r, s, p), p);
            assert((ha * hb) * (ta * tb) == (ha * ta) * (hb * tb)) by (nonlinear_arith);
            if a[0].1 + b[0].1 == 0 {
                lemma_pow0(x);
                lemma_small(1, p);
                let rv = mono_value(r, s, p);
                assert(h * rv == rv) by (nonlinear_arith)
                    requires
                        h == 1,
                ;
                assert(mono_mul(a, b) == r);
            } else {
                let f = (a[0].0, a[0].1 + b[0].1);
                lemma_mono_value_front(seq![f] + r, s, p);
                assert((seq![f] + r).drop_first() =~= r);
                assert(mono_mul(a, b) == seq![f] + r);
            }
        }
    }
}

/// Expressions with the same coefficients have the same value.
pub proof fn lemma_value_same_terms(a: Terms, b: Terms, s: spec_fn(Variable) -> int, p: int)
    requires
        p > 0,
        same_terms(a, b, p),
    ensures
        terms_value(a, s, p) % p == terms_value(b, s, p) % p,
{
    lemma_weighted_same_terms(a, b, |m: Mono| mono_value(m, s, p), p);
}

/// The value of a sum is the sum of the values.
pub proof fn lemma_value_concat(a: Terms, b: Terms, s: spec_fn(Variable) -> int, p: int)
    ensures
        terms_value(a + b, s, p) == terms_value(a, s, p) + terms_value(b, s, p),
{
    lemma_weighted_concat(a, b, |m: Mono| mono_value(m, s, p));
}

/// The value of a product is the product of the values.
pub proof fn lemma_value_product(a: Terms, b: Terms, s: spec_fn(Variable) -> int, p: int)
    requires
        p > 1,
        terms_defined(a, s, p),
        terms_defined(b, s, p),
    ensures
        terms_value(product_terms(a, b), s, p) % p == (terms_value(a, s, p) * terms_value(b, s, p))
            % p,
{
    let g = |m: Mono| mono_value(m, s, p);
    let inner = |k: Mono| weighted_sum(b, |l: Mono| g(mono_mul(k, l)));
    let outer = |k: Mono| g(k) * weighted_sum(b, g);
    lemma_weighted_product(a, b, g);
    assert forall|i: int| 0 <= i < a.len() implies inner((#[trigger] a[i]).0) % p == outer(a[i].0)
        % p by {
        let k = a[i].0;
        let f = |l: Mono| g(mono_mul(k, l));
        let h = |l: Mono| g(k) * g(l);
        assert forall|j: int| 0 <= j < b.len() implies f((#[trigger] b[j]).0) % p == h(b[j].0)
            % p by {
            lemma_mono_value_mul(k, b[j].0, s, p);
        }
        lemma_weighted_cong(b, f, h, p);
        lemma_weighted_factor(b, g, g(k), h);
    }
    lemma_weighted_cong(a, inner, outer, p);
    let w = weighted_sum(b, g);
    assert forall|i: int| 0 <= i < a.len() implies outer((#[trigger] a[i]).0) == w * g(a[i].0) by {
        assert(g(a[i].0) * w == w * g(a[i].0)) by (nonlinear_arith);
    }
    lemma_weighted_factor(a, g, w, outer);
    assert(w * weighted_sum(a, g) == weighted_sum(a, g) * w) by (nonlinear_arith);
}

} // verus!
