//! Sums and products of monomials form a commutative ring.
use crate::arith::{lemma_cong_add, lemma_cong_mul, lemma_small};
use crate::terms::{
    coeff, exponent, lemma_coeff_absent, lemma_coeff_at, lemma_exponent_absent, lemma_exponent_at,
    lemma_mono_mul_associates, lemma_mono_mul_commutes, lemma_mono_mul_exponent, lemma_mono_mul_wf,
    lemma_mono_unique, mono_has, mono_mul, mono_wf, monos_wf, power_terms, product_terms,
    same_terms, scale_terms, terms_wf, weighted_sum, Mono, Terms,
};
use crate::variable::{var_less, Variable};
use vstd::arithmetic::power::{lemma_pow1, lemma_pow_adds, pow};
use vstd::prelude::*;

verus! {

/// The terms of `t` whose monomial is not `m`.
spec fn without(t: Terms, m: Mono) -> Terms
    decreases t.len(),
{
    if t.len() == 0 {
        t
    } else if t.last().0 == m {
        without(t.drop_last(), m)
    } else {
        without(t.drop_last(), m).push(t.last())
    }
}

proof fn lemma_without(t: Terms, m: Mono, weight: spec_fn(Mono) -> int)
    ensures
        without(t, m).len() <= t.len(),
        (exists|i: int| 0 <= i < t.len() && (#[trigger] t[i]).0 == m) ==> without(t, m).len()
            < t.len(),
        weighted_sum(t, weight) == weighted_sum(without(t, m), weight) + coeff(t, m) * weight(m),
    decreases t.len(),
{
    if t.len() > 0 {
        let init = t.drop_last();
        lemma_without(init, m, weight);
        if t.last().0 == m {
            let (x, y, w) = (coeff(init, m), t.last().1, weight(m));
            assert((x + y) * w == x * w + y * w) by (nonlinear_arith);
        } else {
            let w = without(init, m);
            assert(w.push(t.last()).drop_last() =~= w);
            if exists|i: int| 0 <= i < t.len() && (#[trigger] t[i]).0 == m {
                let i = choose|i: int| 0 <= i < t.len() && (#[trigger] t[i]).0 == m;
                assert(i < t.len() - 1);
                assert(init[i] == t[i]);
            }
        }
    } else {
        assert(0 * weight(m) == 0);
    }
}

proof fn lemma_without_coeff(t: Terms, m: Mono, k: Mono)
    ensures
        coeff(without(t, m), k) == if k == m {
            0
        } else {
            coeff(t, k)
        },
    decreases t.len(),
{
    if t.len() > 0 {
        let init = t.drop_last();
        lemma_without_coeff(init, m, k);
        if t.last().0 != m {
            let w = without(init, m);
            assert(w.push(t.last()).drop_last() =~= w);
        }
    }
}

/// A weighted sum only depends on the coefficients.
pub proof fn lemma_weighted_same_terms(a: Terms, b: Terms, weight: spec_fn(Mono) -> int, p: int)
    requires
        p > 0,
        same_terms(a, b, p),
    ensures
        weighted_sum(a, weight) % p == weighted_sum(b, weight) % p,
    decreases a.len() + b.len(),
{
    if a.len() == 0 && b.len() == 0 {
    } else {
        let m = if a.len() > 0 {
            a[0].0
        } else {
            b[0].0
        };
        lemma_without(a, m, weight);
        lemma_without(b, m, weight);
        let a2 = without(a, m);
        let b2 = without(b, m);
        assert forall|k: Mono| #[trigger] coeff(a2, k) % p == coeff(b2, k) % p by {
            lemma_without_coeff(a, m, k);
            lemma_without_coeff(b, m, k);
            assert(coeff(a, k) % p == coeff(b, k) % p);
        }
        lemma_weighted_same_terms(a2, b2, weight, p);
        let w = weight(m);
        assert(coeff(a, m) % p == coeff(b, m) % p);
        lemma_cong_mul(coeff(a, m), coeff(b, m), w, w, p);
        lemma_cong_add(
            weighted_sum(a2, weight),
            weighted_sum(b2, weight),
            coeff(a, m) * w,
            coeff(b, m) * w,
            p,
        );
    }
}

/// The weighted sum of a concatenation.
pub proof fn lemma_weighted_concat(a: Terms, b: Terms, weight: spec_fn(Mono) -> int)
    ensures
        weighted_sum(a + b, weight) == weighted_sum(a, weight) + weighted_sum(b, weight),
    decreases b.len(),
{
    if b.len() == 0 {
        assert(a + b =~= a);
    } else {
        assert((a + b).drop_last() =~= a + b.drop_last());
        lemma_weighted_concat(a, b.drop_last(), weight);
    }
}

/// Weights that agree on the monomials of `t` give the same sum.
pub proof fn lemma_weighted_eq(t: Terms, f: spec_fn(Mono) -> int, g: spec_fn(Mono) -> int)
    requires
        forall|i: int| 0 <= i < t.len() ==> f((#[trigger] t[i]).0) == g(t[i].0),
    ensures
        weighted_sum(t, f) == weighted_sum(t, g),
    decreases t.len(),
{
    if t.len() > 0 {
        let init = t.drop_last();
        assert(t.last() == t[t.len() - 1]);
        assert forall|i: int| 0 <= i < init.len() implies f((#[trigger] init[i]).0) == g(init[i].0) by {
            assert(init[i] == t[i]);
        }
        lemma_weighted_eq(init, f, g);
    }
}

/// Weights that agree modulo `p` on the monomials of `t` give the same sum modulo `p`.
pub proof fn lemma_weighted_cong(t: Terms, f: spec_fn(Mono) -> int, g: spec_fn(Mono) -> int, p: int)
    requires
        p > 0,
        forall|i: int| 0 <= i < t.len() ==> f((#[trigger] t[i]).0) % p == g(t[i].0) % p,
    ensures
        weighted_sum(t, f) % p == weighted_sum(t, g) % p,
    decreases t.len(),
{
    if t.len() > 0 {
        let init = t.drop_last();
        let k = t.last();
        assert(k == t[t.len() - 1]);
        assert forall|i: int| 0 <= i < init.len() implies f((#[trigger] init[i]).0) % p == g(
            init[i].0,
        ) % p by {
            assert(init[i] == t[i]);
        }
        lemma_weighted_cong(init, f, g, p);
        lemma_cong_mul(k.1, k.1, f(k.0), g(k.0), p);
        lemma_cong_add(weighted_sum(init, f), weighted_sum(init, g), k.1 * f(k.0), k.1 * g(k.0), p);
    }
}

/// A sum with zero weights.
pub proof fn lemma_weighted_zero(t: Terms)
    ensures
        weighted_sum(t, |m: Mono| 0int) == 0,
    decreases t.len(),
{
    if t.len() > 0 {
        lemma_weighted_zero(t.drop_last());
        assert(t.last().1 * 0 == 0);
    }
}

/// A weighted sum is linear in the weights.
pub proof fn lemma_weighted_linear(
    t: Terms,
    f: spec_fn(Mono) -> int,
    g: spec_fn(Mono) -> int,
    c: int,
)
    ensures
        weighted_sum(t, |m: Mono| f(m) + c * g(m)) == weighted_sum(t, f) + c * weighted_sum(t, g),
    decreases t.len(),
{
    if t.len() > 0 {
        let init = t.drop_last();
        let k = t.last();
        lemma_weighted_linear(init, f, g, c);
        let (x, y, z, w) = (k.1, f(k.0), g(k.0), weighted_sum(init, g));
        assert(x * (y + c * z) == x * y + c * (x * z)) by (nonlinear_arith);
        assert(c * (w + x * z) == c * w + c * (x * z)) by (nonlinear_arith);
    } else {
        assert(c * 0 == 0);
    }
}

/// A factor of all weights is a factor of the sum.
pub proof fn lemma_weighted_factor(
    t: Terms,
    f: spec_fn(Mono) -> int,
    c: int,
    g: spec_fn(Mono) -> int,
)
    requires
        forall|i: int| 0 <= i < t.len() ==> g((#[trigger] t[i]).0) == c * f(t[i].0),
    ensures
        weighted_sum(t, g) == c * weighted_sum(t, f),
    decreases t.len(),
{
    if t.len() > 0 {
        let init = t.drop_last();
        let k = t.last();
        assert(k == t[t.len() - 1]);
        assert forall|i: int| 0 <= i < init.len() implies g((#[trigger] init[i]).0) == c * f(
            init[i].0,
        ) by {
            assert(init[i] == t[i]);
        }
        lemma_weighted_factor(init, f, c, g);
        let (x, y, z) = (weighted_sum(init, f), k.1, f(k.0));
        assert(c * (x + y * z) == c * x + y * (c * z)) by (nonlinear_arith);
    } else {
        assert(c * 0 == 0);
    }
}

/// The weighted sum of a scaled sum.
pub proof fn lemma_weighted_scale(t: Terms, m: Mono, c: int, weight: spec_fn(Mono) -> int)
    ensures
        weighted_sum(scale_terms(t, m, c), weight) == c * weighted_sum(
            t,
            |l: Mono| weight(mono_mul(m, l)),
        ),
    decreases t.len(),
{
    let r = scale_terms(t, m, c);
    let g = |l: Mono| weight(mono_mul(m, l));
    if t.len() == 0 {
        assert(c * 0 == 0);
    } else {
        let init = t.drop_last();
        let k = t.last();
        lemma_weighted_scale(init, m, c, weight);
        assert(r.drop_last() =~= scale_terms(init, m, c));
        assert(r.last() == (mono_mul(m, k.0), c * k.1));
        let (x, y, z) = (weighted_sum(init, g), k.1, g(k.0));
        assert(c * (x + y * z) == c * x + (c * y) * z) by (nonlinear_arith);
    }
}

/// The weighted sum of a product.
pub proof fn lemma_weighted_product(a: Terms, b: Terms, weight: spec_fn(Mono) -> int)
    ensures
        weighted_sum(product_terms(a, b), weight) == weighted_sum(
            a,
            |k: Mono| weighted_sum(b, |l: Mono| weight(mono_mul(k, l))),
        ),
    decreases a.len(),
{
    if a.len() > 0 {
        let init = a.drop_last();
        let k = a.last();
        lemma_weighted_product(init, b, weight);
        lemma_weighted_concat(product_terms(init, b), scale_terms(b, k.0, k.1), weight);
        lemma_weighted_scale(b, k.0, k.1, weight);
    }
}

/// The order of summation does not matter.
pub proof fn lemma_weighted_swap(a: Terms, b: Terms, h: spec_fn(Mono, Mono) -> int)
    ensures
        weighted_sum(a, |k: Mono| weighted_sum(b, |l: Mono| h(k, l))) == weighted_sum(
            b,
            |l: Mono| weighted_sum(a, |k: Mono| h(k, l)),
        ),
    decreases a.len(),
{
    let right = |l: Mono| weighted_sum(a, |k: Mono| h(k, l));
    if a.len() == 0 {
        lemma_weighted_zero(b);
        lemma_weighted_eq(b, right, |m: Mono| 0int);
    } else {
        let init = a.drop_last();
        let k = a.last();
        lemma_weighted_swap(init, b, h);
        let f = |l: Mono| weighted_sum(init, |k: Mono| h(k, l));
        let g = |l: Mono| h(k.0, l);
        lemma_weighted_linear(b, f, g, k.1);
        lemma_weighted_eq(b, right, |m: Mono| f(m) + k.1 * g(m));
        lemma_weighted_eq(b, g, |l: Mono| h(k.0, l));
    }
}

/// The weight that is 1 on `m` and 0 elsewhere.
pub open spec fn indicator(m: Mono) -> spec_fn(Mono) -> int {
    |k: Mono|
        if k == m {
            1int
        } else {
            0int
        }
}

/// A coefficient is a weighted sum.
pub proof fn lemma_coeff_weighted(t: Terms, m: Mono)
    ensures
        coeff(t, m) == weighted_sum(t, indicator(m)),
    decreases t.len(),
{
    if t.len() > 0 {
        lemma_coeff_weighted(t.drop_last(), m);
        let x = t.last().1;
        assert(x * 1 == x && x * 0 == 0);
    }
}

/// The coefficient of a product.
pub proof fn lemma_coeff_product(a: Terms, b: Terms, m: Mono)
    ensures
        coeff(product_terms(a, b), m) == weighted_sum(
            a,
            |k: Mono| weighted_sum(b, |l: Mono| indicator(m)(mono_mul(k, l))),
        ),
{
    lemma_coeff_weighted(product_terms(a, b), m);
    lemma_weighted_product(a, b, indicator(m));
}

/// A product only depends on the coefficients of its factors.
pub proof fn lemma_product_same_terms(a: Terms, a2: Terms, b: Terms, b2: Terms, p: int)
    requires
        p > 0,
        same_terms(a, a2, p),
        same_terms(b, b2, p),
    ensures
        same_terms(product_terms(a, b), product_terms(a2, b2), p),
{
    assert forall|m: Mono| #[trigger]
        coeff(product_terms(a, b), m) % p == coeff(product_terms(a2, b2), m) % p by {
        lemma_coeff_product(a, b, m);
        lemma_coeff_product(a2, b2, m);
        let f = |k: Mono| weighted_sum(b, |l: Mono| indicator(m)(mono_mul(k, l)));
        let g = |k: Mono| weighted_sum(b2, |l: Mono| indicator(m)(mono_mul(k, l)));
        lemma_weighted_same_terms(a, a2, f, p);
        assert forall|i: int| 0 <= i < a2.len() implies f((#[trigger] a2[i]).0) % p == g(a2[i].0)
            % p by {
            let k = a2[i].0;
            lemma_weighted_same_terms(b, b2, |l: Mono| indicator(m)(mono_mul(k, l)), p);
        }
        lemma_weighted_cong(a2, f, g, p);
    }
}

/// Multiplication is commutative.
pub proof fn lemma_product_commutes(a: Terms, b: Terms, p: int)
    requires
        monos_wf(a),
        monos_wf(b),
    ensures
        same_terms(product_terms(a, b), product_terms(b, a), p),
{
    assert forall|m: Mono| #[trigger]
        coeff(product_terms(a, b), m) % p == coeff(product_terms(b, a), m) % p by {
        lemma_coeff_product(a, b, m);
        lemma_coeff_product(b, a, m);
        let h = |k: Mono, l: Mono| indicator(m)(mono_mul(k, l));
        let f = |k: Mono| weighted_sum(b, |l: Mono| indicator(m)(mono_mul(k, l)));
        let f2 = |k: Mono| weighted_sum(b, |l: Mono| h(k, l));
        assert forall|i: int| 0 <= i < a.len() implies f((#[trigger] a[i]).0) == f2(a[i].0) by {
            let k = a[i].0;
            lemma_weighted_eq(b, |l: Mono| indicator(m)(mono_mul(k, l)), |l: Mono| h(k, l));
        }
        lemma_weighted_eq(a, f, f2);
        lemma_weighted_swap(a, b, h);
        let g = |l: Mono| weighted_sum(a, |k: Mono| h(k, l));
        let g2 = |l: Mono| weighted_sum(a, |k: Mono| indicator(m)(mono_mul(l, k)));
        assert forall|j: int| 0 <= j < b.len() implies g((#[trigger] b[j]).0) == g2(b[j].0) by {
            let l = b[j].0;
            let x = |k: Mono| h(k, l);
            let y = |k: Mono| indicator(m)(mono_mul(l, k));
            assert forall|i: int| 0 <= i < a.len() implies x((#[trigger] a[i]).0) == y(a[i].0) by {
                lemma_mono_mul_commutes(a[i].0, l);
            }
            lemma_weighted_eq(a, x, y);
        }
        lemma_weighted_eq(b, g, g2);
    }
}

/// Multiplication is associative.
pub proof fn lemma_product_associates(a: Terms, b: Terms, c: Terms, p: int)
    requires
        monos_wf(a),
        monos_wf(b),
        monos_wf(c),
    ensures
        same_terms(
            product_terms(product_terms(a, b), c),
            product_terms(a, product_terms(b, c)),
            p,
        ),
{
    let ab = product_terms(a, b);
    let bc = product_terms(b, c);
    assert forall|m: Mono| #[trigger]
        coeff(product_terms(ab, c), m) % p == coeff(product_terms(a, bc), m) % p by {
        lemma_coeff_product(ab, c, m);
        lemma_coeff_product(a, bc, m);
        let w = |k: Mono| weighted_sum(c, |n: Mono| indicator(m)(mono_mul(k, n)));
        lemma_weighted_product(a, b, w);
        let left = |k: Mono| weighted_sum(b, |l: Mono| w(mono_mul(k, l)));
        let right = |k: Mono| weighted_sum(bc, |n: Mono| indicator(m)(mono_mul(k, n)));
        assert forall|i: int| 0 <= i < a.len() implies left((#[trigger] a[i]).0) == right(a[i].0) by {
            let k = a[i].0;
            let v = |n: Mono| indicator(m)(mono_mul(k, n));
            lemma_weighted_product(b, c, v);
            let x = |l: Mono| w(mono_mul(k, l));
            let y = |l: Mono| weighted_sum(c, |n: Mono| v(mono_mul(l, n)));
            assert forall|j: int| 0 <= j < b.len() implies x((#[trigger] b[j]).0) == y(b[j].0) by {
                let l = b[j].0;
                let f = |n: Mono| indicator(m)(mono_mul(mono_mul(k, l), n));
                let g = |n: Mono| v(mono_mul(l, n));
                assert forall|q: int| 0 <= q < c.len() implies f((#[trigger] c[q]).0) == g(
                    c[q].0,
                ) by {
                    lemma_mono_mul_associates(k, l, c[q].0);
                }
                lemma_weighted_eq(c, f, g);
            }
            lemma_weighted_eq(b, x, y);
        }
        lemma_weighted_eq(a, left, right);
    }
}

/// The monomials of a product are well-formed.
pub proof fn lemma_product_monos_wf(a: Terms, b: Terms)
    requires
        monos_wf(a),
        monos_wf(b),
    ensures
        monos_wf(product_terms(a, b)),
    decreases a.len(),
{
    if a.len() > 0 {
        let init = a.drop_last();
        let k = a.last();
        assert(k == a[a.len() - 1]);
        assert forall|i: int| 0 <= i < init.len() implies mono_wf((#[trigger] init[i]).0) by {
            assert(init[i] == a[i]);
        }
        lemma_product_monos_wf(init, b);
        let x = product_terms(init, b);
        let y = scale_terms(b, k.0, k.1);
        assert forall|i: int| 0 <= i < (x + y).len() implies mono_wf((#[trigger] (x + y)[i]).0) by {
            if i < x.len() {
                assert((x + y)[i] == x[i]);
            } else {
                let j = i - x.len();
                assert((x + y)[i] == y[j]);
                lemma_mono_mul_wf(k.0, b[j].0);
            }
        }
    }
}

/// The monomials of a power are well-formed.
pub proof fn lemma_power_monos_wf(t: Terms, n: nat)
    requires
        monos_wf(t),
    ensures
        monos_wf(power_terms(t, n)),
    decreases n,
{
    if n > 0 {
        lemma_power_monos_wf(t, (n - 1) as nat);
        lemma_product_monos_wf(power_terms(t, (n - 1) as nat), t);
    }
}

/// Multiplying by one.
pub proof fn lemma_product_one(t: Terms, p: int)
    ensures
        product_terms(power_terms(t, 0), t) =~= t,
        same_terms(power_terms(t, 1), t, p),
{
    let one = power_terms(t, 0);
    assert(one.drop_last() =~= seq![]);
    assert(product_terms(one.drop_last(), t) =~= seq![]);
    assert(product_terms(one, t) =~= scale_terms(t, one.last().0, one.last().1));
    assert forall|i: int| 0 <= i < t.len() implies scale_terms(t, one.last().0, one.last().1)[i]
        == t[i] by {
        assert(mono_mul(one.last().0, t[i].0) == t[i].0);
        assert(1 * t[i].1 == t[i].1);
    }
    assert(power_terms(t, 1) == product_terms(power_terms(t, 0), t));
}

/// Adding exponents multiplies powers.
pub proof fn lemma_power_add(t: Terms, a: nat, b: nat, p: int)
    requires
        p > 0,
        monos_wf(t),
    ensures
        same_terms(power_terms(t, a + b), product_terms(power_terms(t, a), power_terms(t, b)), p),
    decreases b,
{
    let pa = power_terms(t, a);
    lemma_power_monos_wf(t, a);
    if b == 0 {
        let one = power_terms(t, 0);
        lemma_power_monos_wf(t, 0);
        lemma_product_commutes(pa, one, p);
        lemma_product_one(pa, p);
        assert(power_terms(pa, 0) == one);
    } else {
        let b1 = (b - 1) as nat;
        let pb = power_terms(t, b1);
        lemma_power_monos_wf(t, b1);
        lemma_power_add(t, a, b1, p);
        assert(power_terms(t, a + b) == product_terms(power_terms(t, a + b1), t));
        assert(same_terms(t, t, p));
        lemma_product_same_terms(power_terms(t, a + b1), product_terms(pa, pb), t, t, p);
        lemma_product_associates(pa, pb, t, p);
        assert forall|m: Mono| #[trigger]
            coeff(power_terms(t, a + b), m) % p == coeff(
                product_terms(pa, power_terms(t, b)),
                m,
            ) % p by {
            assert(coeff(power_terms(t, a + b), m) % p == coeff(
                product_terms(product_terms(pa, pb), t),
                m,
            ) % p);
        }
    }
}

/// A power only depends on the coefficients.
pub proof fn lemma_power_same_terms(a: Terms, b: Terms, n: nat, p: int)
    requires
        p > 0,
        same_terms(a, b, p),
    ensures
        same_terms(power_terms(a, n), power_terms(b, n), p),
    decreases n,
{
    if n > 0 {
        lemma_power_same_terms(a, b, (n - 1) as nat, p);
        lemma_product_same_terms(
            power_terms(a, (n - 1) as nat),
            power_terms(b, (n - 1) as nat),
            a,
            b,
            p,
        );
    }
}

/// Raising to an even power is raising the square to half of that power.
pub proof fn lemma_power_double(t: Terms, h: nat, p: int)
    requires
        p > 0,
        monos_wf(t),
    ensures
        same_terms(power_terms(t, 2 * h), power_terms(product_terms(t, t), h), p),
    decreases h,
{
    let sq = product_terms(t, t);
    lemma_product_monos_wf(t, t);
    if h == 0 {
        assert(power_terms(t, 0) == power_terms(sq, 0));
    } else {
        let g = (h - 1) as nat;
        lemma_power_double(t, g, p);
        lemma_power_add(t, 2 * g, 2, p);
        // t^2 is the square
        lemma_product_one(t, p);
        assert(power_terms(t, 2) == product_terms(power_terms(t, 1), t));
        lemma_product_same_terms(power_terms(t, 1), t, t, t, p);
        assert(same_terms(power_terms(t, 2), sq, p));
        lemma_product_same_terms(power_terms(t, 2 * g), power_terms(sq, g), power_terms(t, 2), sq, p);
        assert(2 * g + 2 == 2 * h);
        let goal = power_terms(sq, h);
        assert(goal == product_terms(power_terms(sq, g), sq));
        assert forall|m: Mono| #[trigger] coeff(power_terms(t, 2 * h), m) % p == coeff(goal, m) % p by {
            assert(coeff(power_terms(t, 2 * g + 2), m) % p == coeff(
                product_terms(power_terms(t, 2 * g), power_terms(t, 2)),
                m,
            ) % p);
        }
    }
}

/// `m` raised to the power `n`.
pub open spec fn mono_pow(m: Mono, n: int) -> Mono {
    Seq::new(m.len(), |i: int| (m[i].0, m[i].1 * n))
}

/// Powers of a well-formed monomial.
pub proof fn lemma_mono_pow_wf(m: Mono, n: int)
    requires
        mono_wf(m),
        n != 0,
    ensures
        mono_wf(mono_pow(m, n)),
{
    let r = mono_pow(m, n);
    assert forall|i: int, j: int| 0 <= i < j < r.len() implies var_less(
        (#[trigger] r[i]).0,
        (#[trigger] r[j]).0,
    ) by {
        assert(var_less(m[i].0, m[j].0));
    }
    assert forall|i: int| 0 <= i < r.len() implies (#[trigger] r[i]).1 != 0 by {
        let e = m[i].1;
        assert(e != 0);
        assert(e * n != 0) by (nonlinear_arith)
            requires
                e != 0,
                n != 0,
        ;
    }
}

/// The exponents of a power of a monomial.
pub proof fn lemma_mono_pow_exponent(m: Mono, n: int, v: Variable)
    ensures
        exponent(mono_pow(m, n), v) == exponent(m, v) * n,
    decreases m.len(),
{
    if m.len() > 0 {
        lemma_mono_pow_exponent(m.drop_first(), n, v);
        assert(mono_pow(m, n).drop_first() =~= mono_pow(m.drop_first(), n));
        let h = if m[0].0 == v {
            m[0].1
        } else {
            0
        };
        let r = exponent(m.drop_first(), v);
        assert((h + r) * n == h * n + r * n) by (nonlinear_arith);
    } else {
        assert(0 * n == 0);
    }
}

/// A power of a single term.
pub proof fn lemma_power_single(m: Mono, c: int, n: nat)
    requires
        mono_wf(m),
        n > 0,
    ensures
        power_terms(seq![(m, c)], n) == seq![(mono_pow(m, n as int), pow(c, n))],
    decreases n,
{
    let t = seq![(m, c)];
    if n == 1 {
        lemma_product_one(t, 1);
        assert(power_terms(t, 1) == product_terms(power_terms(t, 0), t));
        assert(mono_pow(m, 1) =~= m) by {
            assert forall|i: int| 0 <= i < m.len() implies mono_pow(m, 1)[i] == m[i] by {
                assert(m[i].1 * 1 == m[i].1);
            }
        }
        lemma_pow1(c);
    } else {
        let k = (n - 1) as nat;
        lemma_power_single(m, c, k);
        let x = mono_pow(m, k as int);
        let prev = seq![(x, pow(c, k))];
        assert(prev.drop_last() =~= seq![]);
        assert(product_terms(prev.drop_last(), t) =~= seq![]);
        assert(product_terms(prev, t) =~= scale_terms(t, x, pow(c, k)));
        lemma_mono_pow_wf(m, k as int);
        lemma_mono_pow_wf(m, n as int);
        lemma_mono_mul_wf(x, m);
        assert forall|v: Variable| exponent(mono_mul(x, m), v) == exponent(mono_pow(m, n as int), v) by {
            lemma_mono_mul_exponent(x, m, v);
            lemma_mono_pow_exponent(m, k as int, v);
            lemma_mono_pow_exponent(m, n as int, v);
            let e = exponent(m, v);
            assert(e * k + e == e * n) by (nonlinear_arith)
                requires
                    n == k + 1,
            ;
        }
        lemma_mono_unique(mono_mul(x, m), mono_pow(m, n as int));
        lemma_pow_adds(c, k, 1);
        lemma_pow1(c);
        assert(scale_terms(t, x, pow(c, k)) =~= seq![(mono_pow(m, n as int), pow(c, n))]);
    }
}

/// Every term of a product is a product of terms.
pub proof fn lemma_product_member(a: Terms, b: Terms, i: int)
    requires
        0 <= i < product_terms(a, b).len(),
    ensures
        exists|x: int, y: int|
            0 <= x < a.len() && 0 <= y < b.len() && product_terms(a, b)[i].0 == #[trigger] mono_mul(
                a[x].0,
                b[y].0,
            ),
    decreases a.len(),
{
    if a.len() > 0 {
        let init = a.drop_last();
        let k = a.last();
        let front = product_terms(init, b);
        let back = scale_terms(b, k.0, k.1);
        if i < front.len() {
            assert((front + back)[i] == front[i]);
            lemma_product_member(init, b, i);
            let (x, y) = choose|x: int, y: int|
                0 <= x < init.len() && 0 <= y < b.len() && front[i].0 == #[trigger] mono_mul(
                    init[x].0,
                    b[y].0,
                );
            assert(init[x] == a[x]);
            assert(product_terms(a, b)[i].0 == mono_mul(a[x].0, b[y].0));
        } else {
            let y = i - front.len();
            assert((front + back)[i] == back[y]);
            assert(product_terms(a, b)[i].0 == mono_mul(a[a.len() - 1].0, b[y].0));
        }
    }
}

/// All exponents of `m` are between `lo` and `hi`.
pub open spec fn mono_within(m: Mono, lo: int, hi: int) -> bool {
    forall|i: int| 0 <= i < m.len() ==> lo <= (#[trigger] m[i]).1 <= hi
}

/// All exponents of `t` are between `lo` and `hi`.
pub open spec fn terms_within(t: Terms, lo: int, hi: int) -> bool {
    forall|i: int| 0 <= i < t.len() ==> mono_within((#[trigger] t[i]).0, lo, hi)
}

/// The exponent of any variable is within the bounds.
proof fn lemma_exponent_within(m: Mono, v: Variable, lo: int, hi: int)
    requires
        mono_wf(m),
        mono_within(m, lo, hi),
        lo <= 0 <= hi,
    ensures
        lo <= exponent(m, v) <= hi,
{
    if mono_has(m, v) {
        let i = choose|i: int| 0 <= i < m.len() && (#[trigger] m[i]).0 == v;
        lemma_exponent_at(m, i);
    } else {
        lemma_exponent_absent(m, v);
    }
}

/// Bounds on the exponents of a product of monomials.
pub proof fn lemma_mono_mul_within(a: Mono, b: Mono, lo1: int, hi1: int, lo2: int, hi2: int)
    requires
        mono_wf(a),
        mono_wf(b),
        mono_within(a, lo1, hi1),
        mono_within(b, lo2, hi2),
        lo1 <= 0 <= hi1,
        lo2 <= 0 <= hi2,
    ensures
        mono_within(mono_mul(a, b), lo1 + lo2, hi1 + hi2),
{
    let r = mono_mul(a, b);
    lemma_mono_mul_wf(a, b);
    assert forall|i: int| 0 <= i < r.len() implies lo1 + lo2 <= (#[trigger] r[i]).1 <= hi1
        + hi2 by {
        let v = r[i].0;
        lemma_exponent_at(r, i);
        lemma_mono_mul_exponent(a, b, v);
        lemma_exponent_within(a, v, lo1, hi1);
        lemma_exponent_within(b, v, lo2, hi2);
    }
}

/// Bounds on the exponents of a product in normal form.
pub proof fn lemma_product_within(
    r: Terms,
    a: Terms,
    b: Terms,
    lo1: int,
    hi1: int,
    lo2: int,
    hi2: int,
    p: int,
)
    requires
        p > 0,
        monos_wf(a),
        monos_wf(b),
        terms_within(a, lo1, hi1),
        terms_within(b, lo2, hi2),
        lo1 <= 0 <= hi1,
        lo2 <= 0 <= hi2,
        terms_wf(r, p),
        same_terms(r, product_terms(a, b), p),
    ensures
        terms_within(r, lo1 + lo2, hi1 + hi2),
{
    let t = product_terms(a, b);
    assert forall|i: int| 0 <= i < r.len() implies mono_within(
        (#[trigger] r[i]).0,
        lo1 + lo2,
        hi1 + hi2,
    ) by {
        let m = r[i].0;
        lemma_coeff_at(r, i, p);
        lemma_small(r[i].1, p);
        assert(coeff(r, m) % p == coeff(t, m) % p);
        if forall|j: int| 0 <= j < t.len() ==> (#[trigger] t[j]).0 != m {
            lemma_coeff_absent(t, m);
            lemma_small(0, p);
        }
        let j = choose|j: int| 0 <= j < t.len() && (#[trigger] t[j]).0 == m;
        lemma_product_member(a, b, j);
        let (x, y) = choose|x: int, y: int|
            0 <= x < a.len() && 0 <= y < b.len() && t[j].0 == #[trigger] mono_mul(a[x].0, b[y].0);
        lemma_mono_mul_within(a[x].0, b[y].0, lo1, hi1, lo2, hi2);
    }
}

} // verus!
