//! Laws about the degrees of constraint expressions.
use crate::algebra::{indicator, lemma_coeff_product, lemma_product_member};
use crate::arith::lemma_small;
use crate::expr::{
    canonical, const_terms, is_difference, is_normal_form, is_sum, lemma_normal_form_member,
    mono_degree, terms_degree, var_terms,
};
use crate::field::Field;
use crate::primes::lemma_zero_product;
use crate::substitution::lemma_occurs;
use crate::terms::{
    coeff, exponent, lemma_coeff_at, lemma_exponent_absent, lemma_exponent_at,
    lemma_mono_less_irreflexive, lemma_mono_mul_exponent, lemma_tail_wf, mono_has, mono_less,
    mono_mul, mono_wf, product_terms, terms_wf, weighted_sum, Mono, Terms,
};
use crate::variable::{var_less, Variable};
use vstd::prelude::*;

verus! {

/// No monomial has a higher degree than the expression.
pub proof fn lemma_degree_above(t: Terms, i: int)
    requires
        0 <= i < t.len(),
    ensures
        mono_degree(t[i].0) <= terms_degree(t),
    decreases t.len(),
{
    if i < t.len() - 1 {
        assert(t.drop_last()[i] == t[i]);
        lemma_degree_above(t.drop_last(), i);
    }
}

/// The degree of an expression is 0 or that of some monomial.
pub proof fn lemma_degree_reached(t: Terms)
    ensures
        terms_degree(t) >= 0,
        terms_degree(t) == 0 || exists|i: int|
            0 <= i < t.len() && mono_degree((#[trigger] t[i]).0) == terms_degree(t),
    decreases t.len(),
{
    if t.len() > 0 {
        let init = t.drop_last();
        lemma_degree_reached(init);
        if terms_degree(init) < mono_degree(t.last().0) {
            assert(mono_degree(t[t.len() - 1].0) == terms_degree(t));
        } else if terms_degree(init) != 0 {
            let i = choose|i: int|
                0 <= i < init.len() && mono_degree((#[trigger] init[i]).0) == terms_degree(init);
            assert(mono_degree(t[i].0) == terms_degree(t));
        }
    }
}

/// The degree of a sum or difference is at most the higher one of the degrees.
proof fn lemma_degree_of_sum(r: Terms, a: Terms, b: Terms, p: int)
    requires
        p > 0,
        terms_wf(r, p),
        forall|m: Mono|
            coeff(a, m) == 0 && coeff(b, m) == 0 ==> #[trigger] coeff(r, m) == 0,
    ensures
        terms_degree(r) <= terms_degree(a) || terms_degree(r) <= terms_degree(b),
{
    lemma_degree_reached(a);
    lemma_degree_reached(r);
    if terms_degree(r) != 0 {
        let i = choose|i: int|
            0 <= i < r.len() && mono_degree((#[trigger] r[i]).0) == terms_degree(r);
        let m = r[i].0;
        lemma_coeff_at(r, i, p);
        assert(coeff(r, m) != 0);
        if coeff(a, m) != 0 {
            lemma_occurs(a, m);
            let k = choose|k: int| 0 <= k < a.len() && (#[trigger] a[k]).0 == m;
            lemma_degree_above(a, k);
        } else {
            lemma_occurs(b, m);
            let k = choose|k: int| 0 <= k < b.len() && (#[trigger] b[k]).0 == m;
            lemma_degree_above(b, k);
        }
    }
}

/// The degree of a sum is at most the higher one of the degrees of the summands.
pub proof fn law_degree_of_sum(r: Terms, a: Terms, b: Terms, p: int)
    requires
        p > 0,
        is_sum(r, a, b, p),
    ensures
        terms_degree(r) <= terms_degree(a) || terms_degree(r) <= terms_degree(b),
{
    lemma_small(0, p);
    lemma_degree_of_sum(r, a, b, p);
}

/// The degree of a difference is at most the higher one of the degrees of its operands.
pub proof fn law_degree_of_difference(r: Terms, a: Terms, b: Terms, p: int)
    requires
        p > 0,
        is_difference(r, a, b, p),
    ensures
        terms_degree(r) <= terms_degree(a) || terms_degree(r) <= terms_degree(b),
{
    lemma_small(0, p);
    lemma_degree_of_sum(r, a, b, p);
}

/// Constants have degree 0.
pub proof fn law_degree_of_constant(value: int)
    ensures
        terms_degree(const_terms(value)) == 0,
{
    let t = const_terms(value);
    if t.len() > 0 {
        assert(t.drop_last().len() == 0);
        assert(terms_degree(t.drop_last()) == 0);
        assert(mono_degree(t.last().0) == 0);
    }
}

/// Variables have degree 1.
pub proof fn law_degree_of_variable(v: Variable)
    ensures
        terms_degree(var_terms(v)) == 1,
{
    let t = var_terms(v);
    let m = t.last().0;
    assert(t.drop_last().len() == 0);
    assert(terms_degree(t.drop_last()) == 0);
    assert(m.drop_last().len() == 0);
    assert(mono_degree(m.drop_last()) == 0);
}

/// The degree of a monomial, from the front.
proof fn lemma_degree_front(m: Mono)
    requires
        m.len() > 0,
    ensures
        mono_degree(m) == m[0].1 + mono_degree(m.drop_first()),
    decreases m.len(),
{
    let rest = m.drop_first();
    if rest.len() == 0 {
        assert(m.drop_last().len() == 0);
        assert(mono_degree(m.drop_last()) == 0);
    } else {
        lemma_degree_front(m.drop_last());
        assert(m.drop_last().drop_first() =~= rest.drop_last());
    }
}

/// The degree of a product of monomials is the sum of their degrees.
proof fn lemma_degree_of_mono_product(a: Mono, b: Mono)
    ensures
        mono_degree(mono_mul(a, b)) == mono_degree(a) + mono_degree(b),
    decreases a.len() + b.len(),
{
    let r = mono_mul(a, b);
    if a.len() > 0 && b.len() > 0 {
        lemma_degree_front(a);
        lemma_degree_front(b);
        if var_less(a[0].0, b[0].0) {
            let rest = mono_mul(a.drop_first(), b);
            lemma_degree_of_mono_product(a.drop_first(), b);
            lemma_degree_front(r);
            assert(r.drop_first() =~= rest);
        } else if var_less(b[0].0, a[0].0) {
            let rest = mono_mul(a, b.drop_first());
            lemma_degree_of_mono_product(a, b.drop_first());
            lemma_degree_front(r);
            assert(r.drop_first() =~= rest);
        } else {
            let rest = mono_mul(a.drop_first(), b.drop_first());
            lemma_degree_of_mono_product(a.drop_first(), b.drop_first());
            if a[0].1 + b[0].1 != 0 {
                lemma_degree_front(r);
                assert(r.drop_first() =~= rest);
            }
        }
    }
}

/// `v` is the first variable whose exponents are different, and that of `a` is the lower one.
spec fn lower_at(a: Mono, b: Mono, v: Variable) -> bool {
    &&& exponent(a, v) < exponent(b, v)
    &&& forall|u: Variable| #[trigger] var_less(u, v) ==> exponent(a, u) == exponent(b, u)
}

/// `v` is the first variable whose exponents are different.
spec fn differ_first_at(a: Mono, b: Mono, v: Variable) -> bool {
    lower_at(a, b, v) || lower_at(b, a, v)
}

/// The order of monomials by their degrees, then by the first exponents that are different. Products
/// keep this order.
spec fn lower(a: Mono, b: Mono) -> bool {
    mono_degree(a) < mono_degree(b) || (mono_degree(a) == mono_degree(b) && exists|v: Variable|
        #[trigger]
        lower_at(a, b, v))
}

/// The order is strict.
proof fn lemma_lower_irreflexive(a: Mono)
    ensures
        !lower(a, a),
{
}

/// The order is transitive.
proof fn lemma_lower_transitive(a: Mono, b: Mono, c: Mono)
    requires
        lower(a, b),
        lower(b, c),
    ensures
        lower(a, c),
{
    if mono_degree(a) == mono_degree(b) && mono_degree(b) == mono_degree(c) {
        let v = choose|v: Variable| #[trigger] lower_at(a, b, v);
        let w = choose|w: Variable| #[trigger] lower_at(b, c, w);
        let least = if var_less(w, v) {
            w
        } else {
            v
        };
        assert forall|u: Variable| #[trigger] var_less(u, least) implies exponent(a, u)
            == exponent(c, u) by {
            assert(var_less(u, v) && var_less(u, w));
        }
        if var_less(v, w) {
            assert(exponent(b, v) == exponent(c, v));
        } else if var_less(w, v) {
            assert(exponent(a, w) == exponent(b, w));
        } else {
            assert(v == w);
        }
        assert(lower_at(a, c, least));
    }
}

/// Variables before the first one have the exponent 0.
proof fn lemma_exponent_before(m: Mono, u: Variable)
    requires
        mono_wf(m),
        m.len() > 0 ==> var_less(u, m[0].0),
    ensures
        exponent(m, u) == 0,
{
    if mono_has(m, u) {
        let i = choose|i: int| 0 <= i < m.len() && (#[trigger] m[i]).0 == u;
        if i > 0 {
            assert(var_less(m[0].0, m[i].0));
        }
    } else {
        lemma_exponent_absent(m, u);
    }
}

/// The first variables of two monomials with different first factors tell the monomials apart.
proof fn lemma_heads_differ(a: Mono, b: Mono)
    requires
        mono_wf(a),
        mono_wf(b),
        a.len() > 0,
        b.len() == 0 || a[0].0 == b[0].0 || var_less(a[0].0, b[0].0),
        b.len() > 0 ==> a[0] != b[0],
    ensures
        lower_at(a, b, a[0].0) || lower_at(b, a, a[0].0),
{
    let v = a[0].0;
    assert forall|u: Variable| #[trigger] var_less(u, v) implies exponent(a, u) == 0 && exponent(
        b,
        u,
    ) == 0 by {
        lemma_exponent_before(a, u);
        lemma_exponent_before(b, u);
    }
    lemma_exponent_at(a, 0);
    assert(a[0].1 != 0);
    if b.len() > 0 && b[0].0 == v {
        lemma_exponent_at(b, 0);
    } else {
        lemma_exponent_before(b, v);
    }
}

/// Two different monomials have a first variable whose exponents are different.
proof fn lemma_first_difference(a: Mono, b: Mono)
    requires
        mono_wf(a),
        mono_wf(b),
        a != b,
    ensures
        exists|v: Variable| #[trigger] differ_first_at(a, b, v),
    decreases a.len(),
{
    if a.len() > 0 && b.len() > 0 && a[0] == b[0] {
        let (x, y) = (a.drop_first(), b.drop_first());
        lemma_tail_wf(a);
        lemma_tail_wf(b);
        if x == y {
            assert(a =~= seq![a[0]] + x);
            assert(b =~= seq![b[0]] + y);
        }
        lemma_first_difference(x, y);
        let v = choose|v: Variable| #[trigger] differ_first_at(x, y, v);
        assert(differ_first_at(a, b, v));
    } else if a.len() == 0 && b.len() == 0 {
        assert(a =~= b);
    } else if a.len() > 0 && (b.len() == 0 || a[0].0 == b[0].0 || var_less(a[0].0, b[0].0)) {
        lemma_heads_differ(a, b);
        let v = a[0].0;
        assert(differ_first_at(a, b, v));
    } else {
        lemma_heads_differ(b, a);
        let v = b[0].0;
        assert(differ_first_at(a, b, v));
    }
}

/// Of two different monomials one is lower.
proof fn lemma_lower_total(a: Mono, b: Mono)
    requires
        mono_wf(a),
        mono_wf(b),
        a != b,
    ensures
        lower(a, b) || lower(b, a),
{
    lemma_first_difference(a, b);
    let v = choose|v: Variable| #[trigger] differ_first_at(a, b, v);
}

/// Products keep the order.
proof fn lemma_lower_product(a: Mono, b: Mono, c: Mono)
    requires
        mono_wf(a),
        mono_wf(b),
        mono_wf(c),
        lower(a, b),
    ensures
        lower(mono_mul(a, c), mono_mul(b, c)),
        lower(mono_mul(c, a), mono_mul(c, b)),
{
    lemma_degree_of_mono_product(a, c);
    lemma_degree_of_mono_product(b, c);
    lemma_degree_of_mono_product(c, a);
    lemma_degree_of_mono_product(c, b);
    if mono_degree(a) == mono_degree(b) {
        let v = choose|v: Variable| #[trigger] lower_at(a, b, v);
        assert forall|u: Variable| exponent(mono_mul(a, c), u) == exponent(a, u) + exponent(c, u)
            && exponent(mono_mul(b, c), u) == exponent(b, u) + exponent(c, u) && exponent(
            mono_mul(c, a),
            u,
        ) == exponent(a, u) + exponent(c, u) && exponent(mono_mul(c, b), u) == exponent(b, u)
            + exponent(c, u) by {
            lemma_mono_mul_exponent(a, c, u);
            lemma_mono_mul_exponent(b, c, u);
            lemma_mono_mul_exponent(c, a, u);
            lemma_mono_mul_exponent(c, b, u);
        }
        assert(lower_at(mono_mul(a, c), mono_mul(b, c), v));
        assert(lower_at(mono_mul(c, a), mono_mul(c, b), v));
    }
}

/// Term number `i` has the highest monomial.
spec fn is_highest(t: Terms, i: int) -> bool {
    &&& 0 <= i < t.len()
    &&& forall|j: int| 0 <= j < t.len() && j != i ==> lower((#[trigger] t[j]).0, t[i].0)
}

/// Every expression but zero has a highest monomial.
proof fn lemma_highest(t: Terms, p: int) -> (i: int)
    requires
        terms_wf(t, p),
        t.len() > 0,
    ensures
        is_highest(t, i),
    decreases t.len(),
{
    let n = t.len() - 1;
    if n == 0 {
        0
    } else {
        let init = t.drop_last();
        assert(terms_wf(init, p)) by {
            assert forall|x: int, y: int| 0 <= x < y < init.len() implies mono_less(
                (#[trigger] init[x]).0,
                (#[trigger] init[y]).0,
            ) by {
                assert(mono_less(t[x].0, t[y].0));
            }
            assert forall|x: int| 0 <= x < init.len() implies mono_wf((#[trigger] init[x]).0) && 0
                < init[x].1 < p by {
                assert(init[x] == t[x]);
            }
        }
        let k = lemma_highest(init, p);
        assert(init[k] == t[k]);
        assert(mono_less(t[k].0, t[n].0));
        lemma_mono_less_irreflexive(t[k].0);
        lemma_lower_total(t[k].0, t[n].0);
        if lower(t[k].0, t[n].0) {
            assert forall|j: int| 0 <= j < t.len() && j != n implies lower(
                (#[trigger] t[j]).0,
                t[n].0,
            ) by {
                assert(init[j] == t[j]);
                if j != k {
                    lemma_lower_transitive(t[j].0, t[k].0, t[n].0);
                }
            }
            n
        } else {
            assert forall|j: int| 0 <= j < t.len() && j != k implies lower(
                (#[trigger] t[j]).0,
                t[k].0,
            ) by {
                if j < n {
                    assert(init[j] == t[j]);
                }
            }
            k
        }
    }
}

/// A sum with one weight other than zero.
proof fn lemma_single_weight(t: Terms, weight: spec_fn(Mono) -> int, i: int)
    requires
        0 <= i < t.len(),
        forall|j: int| 0 <= j < t.len() && j != i ==> weight((#[trigger] t[j]).0) == 0,
    ensures
        weighted_sum(t, weight) == t[i].1 * weight(t[i].0),
    decreases t.len(),
{
    let init = t.drop_last();
    let n = t.len() - 1;
    assert forall|j: int| 0 <= j < init.len() && j != i implies weight((#[trigger] init[j]).0)
        == 0 by {
        assert(init[j] == t[j]);
    }
    if i < n {
        assert(init[i] == t[i]);
        lemma_single_weight(init, weight, i);
        let x = t[n].1;
        assert(weight(t[n].0) == 0);
        assert(x * 0 == 0);
    } else {
        lemma_no_weight(init, weight);
    }
}

/// A sum without weights other than zero.
proof fn lemma_no_weight(t: Terms, weight: spec_fn(Mono) -> int)
    requires
        forall|j: int| 0 <= j < t.len() ==> weight((#[trigger] t[j]).0) == 0,
    ensures
        weighted_sum(t, weight) == 0,
    decreases t.len(),
{
    if t.len() > 0 {
        let init = t.drop_last();
        assert forall|j: int| 0 <= j < init.len() implies weight((#[trigger] init[j]).0) == 0 by {
            assert(init[j] == t[j]);
        }
        lemma_no_weight(init, weight);
        let x = t[t.len() - 1].1;
        assert(weight(t[t.len() - 1].0) == 0);
        assert(x * 0 == 0);
    }
}

/// Products of other monomials than the highest ones are lower than the product of the highest ones.
proof fn lemma_highest_product(a: Terms, b: Terms, i: int, j: int, x: int, y: int, p: int)
    requires
        terms_wf(a, p),
        terms_wf(b, p),
        is_highest(a, i),
        is_highest(b, j),
        0 <= x < a.len(),
        0 <= y < b.len(),
        x != i || y != j,
    ensures
        mono_mul(a[x].0, b[y].0) != mono_mul(a[i].0, b[j].0),
{
    let (k, l) = (a[i].0, b[j].0);
    assert(mono_wf(k) && mono_wf(l) && mono_wf(a[x].0) && mono_wf(b[y].0));
    if x != i {
        lemma_lower_product(a[x].0, k, b[y].0);
    }
    if y != j {
        lemma_lower_product(b[y].0, l, k);
        lemma_lower_product(b[y].0, l, a[x].0);
    }
    if x != i && y != j {
        lemma_lower_transitive(mono_mul(a[x].0, b[y].0), mono_mul(k, b[y].0), mono_mul(k, l));
    }
    lemma_lower_irreflexive(mono_mul(k, l));
}

/// The coefficient of the product of the highest monomials is the product of their coefficients.
proof fn lemma_highest_coefficient(a: Terms, b: Terms, i: int, j: int, p: int)
    requires
        terms_wf(a, p),
        terms_wf(b, p),
        is_highest(a, i),
        is_highest(b, j),
    ensures
        coeff(product_terms(a, b), mono_mul(a[i].0, b[j].0)) == a[i].1 * b[j].1,
{
    let m = mono_mul(a[i].0, b[j].0);
    lemma_coeff_product(a, b, m);
    let outer = |k: Mono| weighted_sum(b, |l: Mono| indicator(m)(mono_mul(k, l)));
    assert forall|x: int| 0 <= x < a.len() && x != i implies outer((#[trigger] a[x]).0) == 0 by {
        let inner = |l: Mono| indicator(m)(mono_mul(a[x].0, l));
        assert forall|y: int| 0 <= y < b.len() implies inner((#[trigger] b[y]).0) == 0 by {
            lemma_highest_product(a, b, i, j, x, y, p);
        }
        lemma_no_weight(b, inner);
    }
    lemma_single_weight(a, outer, i);
    let inner = |l: Mono| indicator(m)(mono_mul(a[i].0, l));
    assert forall|y: int| 0 <= y < b.len() && y != j implies inner((#[trigger] b[y]).0) == 0 by {
        lemma_highest_product(a, b, i, j, i, y, p);
    }
    lemma_single_weight(b, inner, j);
    let c = b[j].1;
    assert(c * 1 == c);
}

/// The highest monomial has the highest degree.
proof fn lemma_highest_degree(t: Terms, i: int)
    requires
        canonical(t),
        is_highest(t, i),
    ensures
        mono_degree(t[i].0) == terms_degree(t),
{
    lemma_degree_reached(t);
    lemma_degree_above(t, i);
    if terms_degree(t) == 0 {
        assert forall|j: int| 0 <= j < t[i].0.len() implies (#[trigger] t[i].0[j]).1 >= 0 by {}
        lemma_degree_nonnegative(t[i].0);
    } else {
        let k = choose|k: int|
            0 <= k < t.len() && mono_degree((#[trigger] t[k]).0) == terms_degree(t);
        if k != i {
            assert(lower(t[k].0, t[i].0));
        }
    }
}

/// The degree of a monomial without negative exponents.
proof fn lemma_degree_nonnegative(m: Mono)
    requires
        forall|j: int| 0 <= j < m.len() ==> (#[trigger] m[j]).1 >= 0,
    ensures
        mono_degree(m) >= 0,
    decreases m.len(),
{
    if m.len() > 0 {
        let init = m.drop_last();
        assert forall|j: int| 0 <= j < init.len() implies (#[trigger] init[j]).1 >= 0 by {
            assert(init[j] == m[j]);
        }
        lemma_degree_nonnegative(init);
        assert(m[m.len() - 1].1 >= 0);
    }
}

/// The degree of a product is at most the sum of the degrees of the factors.
pub proof fn law_degree_of_product_bound(r: Terms, a: Terms, b: Terms, p: int)
    requires
        p > 0,
        is_normal_form(r, product_terms(a, b), p),
    ensures
        terms_degree(r) <= terms_degree(a) + terms_degree(b),
{
    let goal = product_terms(a, b);
    lemma_degree_reached(r);
    lemma_degree_reached(a);
    lemma_degree_reached(b);
    if terms_degree(r) != 0 {
        let i = choose|i: int|
            0 <= i < r.len() && mono_degree((#[trigger] r[i]).0) == terms_degree(r);
        lemma_normal_form_member(r, goal, i, p);
        let k = choose|k: int| 0 <= k < goal.len() && (#[trigger] goal[k]).0 == r[i].0;
        lemma_product_member(a, b, k);
        let (x, y) = choose|x: int, y: int|
            0 <= x < a.len() && 0 <= y < b.len() && goal[k].0 == #[trigger] mono_mul(
                a[x].0,
                b[y].0,
            );
        lemma_degree_of_mono_product(a[x].0, b[y].0);
        lemma_degree_above(a, x);
        lemma_degree_above(b, y);
    }
}

/// The degree of a product of expressions in non-negative powers is the sum of the degrees of the
/// factors, unless a factor is zero.
pub proof fn law_degree_of_product<F: Field>(r: Terms, a: Terms, b: Terms)
    requires
        terms_wf(a, F::modulus()),
        terms_wf(b, F::modulus()),
        canonical(a),
        canonical(b),
        a.len() > 0,
        b.len() > 0,
        is_normal_form(r, product_terms(a, b), F::modulus()),
    ensures
        terms_degree(r) == terms_degree(a) + terms_degree(b),
{
    let p = F::modulus();
    F::lemma_modulus();
    F::lemma_inverses();
    law_degree_of_product_bound(r, a, b, p);
    let i = lemma_highest(a, p);
    let j = lemma_highest(b, p);
    let m = mono_mul(a[i].0, b[j].0);
    lemma_highest_coefficient(a, b, i, j, p);
    lemma_highest_degree(a, i);
    lemma_highest_degree(b, j);
    lemma_degree_of_mono_product(a[i].0, b[j].0);
    assert(0 < a[i].1 < p && 0 < b[j].1 < p);
    lemma_small(a[i].1, p);
    lemma_small(b[j].1, p);
    if (a[i].1 * b[j].1) % p == 0 {
        lemma_zero_product(a[i].1, b[j].1, p);
    }
    assert(coeff(r, m) == coeff(product_terms(a, b), m) % p);
    lemma_occurs(r, m);
    let k = choose|k: int| 0 <= k < r.len() && (#[trigger] r[k]).0 == m;
    lemma_degree_above(r, k);
}

} // verus!
