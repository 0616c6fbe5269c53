//! Monomials and sums of monomials, as mathematical objects.
//!
//! A monomial is a sequence of factors, each a variable with its exponent. A sum of monomials is a
//! sequence of terms, each a monomial with its coefficient.
use crate::arith::mod_pow;
use crate::variable::{shift_variable, var_less, Variable};
use vstd::prelude::*;

verus! {

/// A product of powers of variables.
pub type Mono = Seq<(Variable, int)>;

/// A sum of monomials with coefficients.
pub type Terms = Seq<(Mono, int)>;

/// All variables of `m` come after `v`.
pub open spec fn above(m: Mono, v: Variable) -> bool {
    forall|i: int| 0 <= i < m.len() ==> var_less(v, (#[trigger] m[i]).0)
}

/// The variables of a monomial strictly increase, and no exponent is zero.
pub open spec fn mono_wf(m: Mono) -> bool {
    &&& forall|i: int, j: int| 0 <= i < j < m.len() ==> var_less((#[trigger] m[i]).0, (#[trigger] m[j]).0)
    &&& forall|i: int| 0 <= i < m.len() ==> (#[trigger] m[i]).1 != 0
}

/// The exponent of `v` in `m`.
pub open spec fn exponent(m: Mono, v: Variable) -> int
    decreases m.len(),
{
    if m.len() == 0 {
        0
    } else {
        (if m[0].0 == v {
            m[0].1
        } else {
            0
        }) + exponent(m.drop_first(), v)
    }
}

/// The product of two monomials.
pub open spec fn mono_mul(a: Mono, b: Mono) -> Mono
    decreases a.len() + b.len(),
{
    if a.len() == 0 {
        b
    } else if b.len() == 0 {
        a
    } else if var_less(a[0].0, b[0].0) {
        seq![a[0]] + mono_mul(a.drop_first(), b)
    } else if var_less(b[0].0, a[0].0) {
        seq![b[0]] + mono_mul(a, b.drop_first())
    } else if a[0].1 + b[0].1 == 0 {
        mono_mul(a.drop_first(), b.drop_first())
    } else {
        seq![(a[0].0, a[0].1 + b[0].1)] + mono_mul(a.drop_first(), b.drop_first())
    }
}

/// The order of factors: by variable, then by exponent.
pub open spec fn factor_less(a: (Variable, int), b: (Variable, int)) -> bool {
    var_less(a.0, b.0) || (a.0 == b.0 && a.1 < b.1)
}

/// The order of monomials: lexicographic in their factors.
pub open spec fn mono_less(a: Mono, b: Mono) -> bool
    decreases a.len(),
{
    if b.len() == 0 {
        false
    } else if a.len() == 0 {
        true
    } else if a[0] == b[0] {
        mono_less(a.drop_first(), b.drop_first())
    } else {
        factor_less(a[0], b[0])
    }
}

/// Sums of monomials in normal form: the monomials strictly increase, and the coefficients are
/// residues modulo `p` other than zero.
pub open spec fn terms_wf(t: Terms, p: int) -> bool {
    &&& forall|i: int, j: int| 0 <= i < j < t.len() ==> mono_less((#[trigger] t[i]).0, (#[trigger] t[j]).0)
    &&& forall|i: int| 0 <= i < t.len() ==> mono_wf((#[trigger] t[i]).0)
    &&& forall|i: int| 0 <= i < t.len() ==> 0 < (#[trigger] t[i]).1 < p
}

/// The coefficient of `m` in `t`.
pub open spec fn coeff(t: Terms, m: Mono) -> int
    decreases t.len(),
{
    if t.len() == 0 {
        0
    } else {
        coeff(t.drop_last(), m) + if t.last().0 == m {
            t.last().1
        } else {
            0
        }
    }
}

/// The terms of `t`, each multiplied by `c` times the monomial `m`.
pub open spec fn scale_terms(t: Terms, m: Mono, c: int) -> Terms {
    Seq::new(t.len(), |i: int| (mono_mul(m, t[i].0), c * t[i].1))
}

/// All products of a term of `a` and a term of `b`.
pub open spec fn product_terms(a: Terms, b: Terms) -> Terms
    decreases a.len(),
{
    if a.len() == 0 {
        seq![]
    } else {
        product_terms(a.drop_last(), b) + scale_terms(b, a.last().0, a.last().1)
    }
}

/// `m` with `offset` added to all column indices.
pub open spec fn shift_mono(m: Mono, offset: int) -> Mono {
    Seq::new(m.len(), |i: int| (shift_variable(m[i].0, offset), m[i].1))
}

/// `t` with `offset` added to all column indices.
pub open spec fn shift_terms(t: Terms, offset: int) -> Terms {
    Seq::new(t.len(), |i: int| (shift_mono(t[i].0, offset), t[i].1))
}

/// `v` occurs in `m`.
pub open spec fn mono_has(m: Mono, v: Variable) -> bool {
    exists|i: int| 0 <= i < m.len() && (#[trigger] m[i]).0 == v
}

/// `v` occurs in `t`.
pub open spec fn terms_have(t: Terms, v: Variable) -> bool {
    exists|i: int| 0 <= i < t.len() && mono_has((#[trigger] t[i]).0, v)
}

/// The value of a monomial under an assignment of residues modulo `p` to the variables.
pub open spec fn mono_value(m: Mono, s: spec_fn(Variable) -> int, p: int) -> int
    decreases m.len(),
{
    if m.len() == 0 {
        1
    } else {
        mono_value(m.drop_last(), s, p) * mod_pow(s(m.last().0), m.last().1, p)
    }
}

/// The sum of the coefficients of `t`, each multiplied by the weight of its monomial.
pub open spec fn weighted_sum(t: Terms, weight: spec_fn(Mono) -> int) -> int
    decreases t.len(),
{
    if t.len() == 0 {
        0
    } else {
        weighted_sum(t.drop_last(), weight) + t.last().1 * weight(t.last().0)
    }
}

/// The value of a sum of monomials under an assignment, before it is reduced modulo `p`.
pub open spec fn terms_value(t: Terms, s: spec_fn(Variable) -> int, p: int) -> int {
    weighted_sum(t, |m: Mono| mono_value(m, s, p))
}

/// The coefficients of `a` and `b` are the same modulo `p`.
pub open spec fn same_terms(a: Terms, b: Terms, p: int) -> bool {
    forall|m: Mono| #[trigger] coeff(a, m) % p == coeff(b, m) % p
}

/// `t` multiplied by itself `n` times.
pub open spec fn power_terms(t: Terms, n: nat) -> Terms
    decreases n,
{
    if n == 0 {
        seq![(Seq::<(Variable, int)>::empty(), 1int)]
    } else {
        product_terms(power_terms(t, (n - 1) as nat), t)
    }
}

/// All monomials of `t` are well-formed.
pub open spec fn monos_wf(t: Terms) -> bool {
    forall|i: int| 0 <= i < t.len() ==> mono_wf((#[trigger] t[i]).0)
}

// ---- Exponents ----

/// Variables that do not occur have exponent zero.
pub proof fn lemma_exponent_absent(m: Mono, v: Variable)
    requires
        !mono_has(m, v),
    ensures
        exponent(m, v) == 0,
    decreases m.len(),
{
    if m.len() > 0 {
        assert(m[0].0 != v);
        assert forall|i: int| 0 <= i < m.drop_first().len() implies (#[trigger] m.drop_first()[i]).0
            != v by {
            assert(m.drop_first()[i] == m[i + 1]);
        }
        lemma_exponent_absent(m.drop_first(), v);
    }
}

/// In a well-formed monomial the exponent of a factor's variable is the factor's.
pub proof fn lemma_exponent_at(m: Mono, i: int)
    requires
        mono_wf(m),
        0 <= i < m.len(),
    ensures
        exponent(m, m[i].0) == m[i].1,
    decreases m.len(),
{
    let rest = m.drop_first();
    lemma_tail_wf(m);
    if i == 0 {
        assert(!mono_has(rest, m[0].0));
        lemma_exponent_absent(rest, m[0].0);
    } else {
        assert(rest[i - 1] == m[i]);
        assert(var_less(m[0].0, m[i].0));
        lemma_exponent_at(rest, i - 1);
    }
}

/// The tail of a well-formed monomial is well-formed and above its head.
pub proof fn lemma_tail_wf(m: Mono)
    requires
        mono_wf(m),
        m.len() > 0,
    ensures
        mono_wf(m.drop_first()),
        above(m.drop_first(), m[0].0),
{
    let rest = m.drop_first();
    assert forall|i: int, j: int| 0 <= i < j < rest.len() implies var_less(
        (#[trigger] rest[i]).0,
        (#[trigger] rest[j]).0,
    ) by {
        assert(rest[i] == m[i + 1] && rest[j] == m[j + 1]);
    }
    assert forall|i: int| 0 <= i < rest.len() implies (#[trigger] rest[i]).1 != 0 && var_less(
        m[0].0,
        rest[i].0,
    ) by {
        assert(rest[i] == m[i + 1]);
    }
}

/// A monomial made of a head and a tail above it.
proof fn lemma_cons_wf(f: (Variable, int), m: Mono)
    requires
        mono_wf(m),
        above(m, f.0),
        f.1 != 0,
    ensures
        mono_wf(seq![f] + m),
{
    let r = seq![f] + m;
    assert forall|i: int, j: int| 0 <= i < j < r.len() implies var_less(
        (#[trigger] r[i]).0,
        (#[trigger] r[j]).0,
    ) by {
        assert(r[j] == m[j - 1]);
        if i > 0 {
            assert(r[i] == m[i - 1]);
        }
    }
    assert forall|i: int| 0 <= i < r.len() implies (#[trigger] r[i]).1 != 0 by {
        if i > 0 {
            assert(r[i] == m[i - 1]);
        }
    }
}

/// The variables of a product come from its factors.
proof fn lemma_mono_mul_above(a: Mono, b: Mono, v: Variable)
    requires
        above(a, v),
        above(b, v),
    ensures
        above(mono_mul(a, b), v),
    decreases a.len() + b.len(),
{
    if a.len() == 0 || b.len() == 0 {
    } else {
        assert forall|i: int| 0 <= i < a.drop_first().len() implies var_less(
            v,
            (#[trigger] a.drop_first()[i]).0,
        ) by {
            assert(a.drop_first()[i] == a[i + 1]);
        }
        assert forall|i: int| 0 <= i < b.drop_first().len() implies var_less(
            v,
            (#[trigger] b.drop_first()[i]).0,
        ) by {
            assert(b.drop_first()[i] == b[i + 1]);
        }
        assert(var_less(v, a[0].0));
        assert(var_less(v, b[0].0));
        let (head, rest) = if var_less(a[0].0, b[0].0) {
            lemma_mono_mul_above(a.drop_first(), b, v);
            (seq![a[0]], mono_mul(a.drop_first(), b))
        } else if var_less(b[0].0, a[0].0) {
            lemma_mono_mul_above(a, b.drop_first(), v);
            (seq![b[0]], mono_mul(a, b.drop_first()))
        } else {
            lemma_mono_mul_above(a.drop_first(), b.drop_first(), v);
            (
                if a[0].1 + b[0].1 == 0 {
                    seq![]
                } else {
                    seq![(a[0].0, a[0].1 + b[0].1)]
                },
                mono_mul(a.drop_first(), b.drop_first()),
            )
        };
        assert(mono_mul(a, b) =~= head + rest);
        assert forall|i: int| 0 <= i < (head + rest).len() implies var_less(
            v,
            (#[trigger] (head + rest)[i]).0,
        ) by {
            if i >= head.len() {
                assert((head + rest)[i] == rest[i - head.len()]);
            }
        }
    }
}

/// A well-formed monomial is above everything before its head.
proof fn lemma_above_head(m: Mono, v: Variable)
    requires
        mono_wf(m),
        m.len() > 0,
        var_less(v, m[0].0),
    ensures
        above(m, v),
{
    assert forall|i: int| 0 <= i < m.len() implies var_less(v, (#[trigger] m[i]).0) by {
        if i > 0 {
            assert(var_less(m[0].0, m[i].0));
        }
    }
}

/// Products of well-formed monomials are well-formed.
pub proof fn lemma_mono_mul_wf(a: Mono, b: Mono)
    requires
        mono_wf(a),
        mono_wf(b),
    ensures
        mono_wf(mono_mul(a, b)),
    decreases a.len() + b.len(),
{
    if a.len() == 0 || b.len() == 0 {
    } else {
        lemma_tail_wf(a);
        lemma_tail_wf(b);
        if var_less(a[0].0, b[0].0) {
            lemma_mono_mul_wf(a.drop_first(), b);
            lemma_above_head(b, a[0].0);
            lemma_mono_mul_above(a.drop_first(), b, a[0].0);
            lemma_cons_wf(a[0], mono_mul(a.drop_first(), b));
        } else if var_less(b[0].0, a[0].0) {
            lemma_mono_mul_wf(a, b.drop_first());
            lemma_above_head(a, b[0].0);
            lemma_mono_mul_above(a, b.drop_first(), b[0].0);
            lemma_cons_wf(b[0], mono_mul(a, b.drop_first()));
        } else {
            lemma_mono_mul_wf(a.drop_first(), b.drop_first());
            if a[0].1 + b[0].1 != 0 {
                assert(a[0].0 == b[0].0);
                lemma_mono_mul_above(a.drop_first(), b.drop_first(), a[0].0);
                lemma_cons_wf(
                    (a[0].0, a[0].1 + b[0].1),
                    mono_mul(a.drop_first(), b.drop_first()),
                );
            }
        }
    }
}

/// The exponents of a product are the sums of the exponents of its factors.
pub proof fn lemma_mono_mul_exponent(a: Mono, b: Mono, v: Variable)
    ensures
        exponent(mono_mul(a, b), v) == exponent(a, v) + exponent(b, v),
    decreases a.len() + b.len(),
{
    if a.len() == 0 || b.len() == 0 {
    } else if var_less(a[0].0, b[0].0) {
        lemma_mono_mul_exponent(a.drop_first(), b, v);
        let r = mono_mul(a.drop_first(), b);
        assert((seq![a[0]] + r).drop_first() =~= r);
    } else if var_less(b[0].0, a[0].0) {
        lemma_mono_mul_exponent(a, b.drop_first(), v);
        let r = mono_mul(a, b.drop_first());
        assert((seq![b[0]] + r).drop_first() =~= r);
    } else {
        assert(a[0].0 == b[0].0);
        lemma_mono_mul_exponent(a.drop_first(), b.drop_first(), v);
        let r = mono_mul(a.drop_first(), b.drop_first());
        assert((seq![(a[0].0, a[0].1 + b[0].1)] + r).drop_first() =~= r);
    }
}

/// A well-formed monomial is determined by its exponents.
pub proof fn lemma_mono_unique(a: Mono, b: Mono)
    requires
        mono_wf(a),
        mono_wf(b),
        forall|v: Variable| exponent(a, v) == exponent(b, v),
    ensures
        a == b,
    decreases a.len() + b.len(),
{
    if a.len() == 0 {
        if b.len() > 0 {
            lemma_exponent_at(b, 0);
            assert(exponent(a, b[0].0) == 0);
        }
        assert(a =~= b);
    } else if b.len() == 0 {
        lemma_exponent_at(a, 0);
        assert(exponent(b, a[0].0) == 0);
    } else {
        lemma_exponent_at(a, 0);
        lemma_exponent_at(b, 0);
        if var_less(a[0].0, b[0].0) {
            lemma_above_head(b, a[0].0);
            assert(!mono_has(b, a[0].0));
            lemma_exponent_absent(b, a[0].0);
        } else if var_less(b[0].0, a[0].0) {
            lemma_above_head(a, b[0].0);
            assert(!mono_has(a, b[0].0));
            lemma_exponent_absent(a, b[0].0);
        } else {
            lemma_tail_wf(a);
            lemma_tail_wf(b);
            assert(a[0] == b[0]);
            assert forall|v: Variable| exponent(a.drop_first(), v) == exponent(b.drop_first(), v) by {
                assert(exponent(a, v) == exponent(b, v));
            }
            lemma_mono_unique(a.drop_first(), b.drop_first());
            assert(a =~= seq![a[0]] + a.drop_first());
            assert(b =~= seq![b[0]] + b.drop_first());
        }
    }
}

/// Multiplication of monomials is commutative.
pub proof fn lemma_mono_mul_commutes(a: Mono, b: Mono)
    requires
        mono_wf(a),
        mono_wf(b),
    ensures
        mono_mul(a, b) == mono_mul(b, a),
{
    lemma_mono_mul_wf(a, b);
    lemma_mono_mul_wf(b, a);
    assert forall|v: Variable| exponent(mono_mul(a, b), v) == exponent(mono_mul(b, a), v) by {
        lemma_mono_mul_exponent(a, b, v);
        lemma_mono_mul_exponent(b, a, v);
    }
    lemma_mono_unique(mono_mul(a, b), mono_mul(b, a));
}

/// Multiplication of monomials is associative.
pub proof fn lemma_mono_mul_associates(a: Mono, b: Mono, c: Mono)
    requires
        mono_wf(a),
        mono_wf(b),
        mono_wf(c),
    ensures
        mono_mul(mono_mul(a, b), c) == mono_mul(a, mono_mul(b, c)),
{
    lemma_mono_mul_wf(a, b);
    lemma_mono_mul_wf(b, c);
    lemma_mono_mul_wf(mono_mul(a, b), c);
    lemma_mono_mul_wf(a, mono_mul(b, c));
    assert forall|v: Variable|
        exponent(mono_mul(mono_mul(a, b), c), v) == exponent(mono_mul(a, mono_mul(b, c)), v) by {
        lemma_mono_mul_exponent(a, b, v);
        lemma_mono_mul_exponent(b, c, v);
        lemma_mono_mul_exponent(mono_mul(a, b), c, v);
        lemma_mono_mul_exponent(a, mono_mul(b, c), v);
    }
    lemma_mono_unique(mono_mul(mono_mul(a, b), c), mono_mul(a, mono_mul(b, c)));
}

// ---- The order of monomials ----

/// The order of monomials is irreflexive.
pub proof fn lemma_mono_less_irreflexive(a: Mono)
    ensures
        !mono_less(a, a),
    decreases a.len(),
{
    if a.len() > 0 {
        lemma_mono_less_irreflexive(a.drop_first());
    }
}

/// The order of monomials is transitive.
pub proof fn lemma_mono_less_transitive(a: Mono, b: Mono, c: Mono)
    requires
        mono_less(a, b),
        mono_less(b, c),
    ensures
        mono_less(a, c),
    decreases a.len(),
{
    if a.len() > 0 && a[0] == b[0] && b[0] == c[0] {
        lemma_mono_less_transitive(a.drop_first(), b.drop_first(), c.drop_first());
    }
}

/// The order of monomials is total.
pub proof fn lemma_mono_less_total(a: Mono, b: Mono)
    ensures
        mono_less(a, b) || mono_less(b, a) || a == b,
    decreases a.len(),
{
    if a.len() == 0 || b.len() == 0 {
        if a.len() == 0 && b.len() == 0 {
            assert(a =~= b);
        }
    } else if a[0] == b[0] {
        lemma_mono_less_total(a.drop_first(), b.drop_first());
        if a.drop_first() == b.drop_first() {
            assert(a =~= seq![a[0]] + a.drop_first());
            assert(b =~= seq![b[0]] + b.drop_first());
        }
    }
}

// ---- Coefficients ----

/// Coefficients of a concatenation.
pub proof fn lemma_coeff_concat(a: Terms, b: Terms, m: Mono)
    ensures
        coeff(a + b, m) == coeff(a, m) + coeff(b, m),
    decreases b.len(),
{
    if b.len() == 0 {
        assert(a + b =~= a);
    } else {
        assert((a + b).drop_last() =~= a + b.drop_last());
        lemma_coeff_concat(a, b.drop_last(), m);
    }
}

/// Coefficients of a single term.
pub proof fn lemma_coeff_single(x: (Mono, int), m: Mono)
    ensures
        coeff(seq![x], m) == if x.0 == m {
            x.1
        } else {
            0
        },
{
    assert(seq![x].drop_last() =~= Seq::<(Mono, int)>::empty());
    reveal_with_fuel(coeff, 2);
}

/// Monomials that do not occur have coefficient zero.
pub proof fn lemma_coeff_absent(t: Terms, m: Mono)
    requires
        forall|i: int| 0 <= i < t.len() ==> (#[trigger] t[i]).0 != m,
    ensures
        coeff(t, m) == 0,
    decreases t.len(),
{
    if t.len() > 0 {
        assert(t.last() == t[t.len() - 1]);
        assert forall|i: int| 0 <= i < t.drop_last().len() implies (#[trigger] t.drop_last()[i]).0
            != m by {
            assert(t.drop_last()[i] == t[i]);
        }
        lemma_coeff_absent(t.drop_last(), m);
    }
}

/// A part of a normal form is a normal form.
pub proof fn lemma_subrange_wf(t: Terms, a: int, b: int, p: int)
    requires
        terms_wf(t, p),
        0 <= a <= b <= t.len(),
    ensures
        terms_wf(t.subrange(a, b), p),
{
    let s = t.subrange(a, b);
    assert forall|i: int, j: int| 0 <= i < j < s.len() implies mono_less(
        (#[trigger] s[i]).0,
        (#[trigger] s[j]).0,
    ) by {
        assert(s[i] == t[a + i] && s[j] == t[a + j]);
    }
    assert forall|i: int| 0 <= i < s.len() implies mono_wf((#[trigger] s[i]).0) && 0 < s[i].1
        < p by {
        assert(s[i] == t[a + i]);
    }
}

/// In a normal form the coefficient of a term's monomial is the term's.
pub proof fn lemma_coeff_at(t: Terms, i: int, p: int)
    requires
        terms_wf(t, p),
        0 <= i < t.len(),
    ensures
        coeff(t, t[i].0) == t[i].1,
{
    let m = t[i].0;
    let before = t.subrange(0, i);
    let after = t.subrange(i + 1, t.len() as int);
    assert(t =~= (before + seq![t[i]]) + after);
    lemma_coeff_concat(before + seq![t[i]], after, m);
    lemma_coeff_concat(before, seq![t[i]], m);
    lemma_coeff_single(t[i], m);
    lemma_mono_less_irreflexive(m);
    assert forall|j: int| 0 <= j < before.len() implies (#[trigger] before[j]).0 != m by {
        assert(before[j] == t[j]);
        assert(mono_less(t[j].0, t[i].0));
    }
    assert forall|j: int| 0 <= j < after.len() implies (#[trigger] after[j]).0 != m by {
        assert(after[j] == t[i + 1 + j]);
        assert(mono_less(t[i].0, t[i + 1 + j].0));
    }
    lemma_coeff_absent(before, m);
    lemma_coeff_absent(after, m);
}

/// The coefficients of a normal form are residues; those of the monomials that occur are not zero,
/// and those of the others are.
pub proof fn lemma_coeff_bounds(t: Terms, m: Mono, p: int)
    requires
        terms_wf(t, p),
        p > 0,
    ensures
        0 <= coeff(t, m) < p,
        coeff(t, m) != 0 <==> exists|i: int| 0 <= i < t.len() && (#[trigger] t[i]).0 == m,
{
    if exists|i: int| 0 <= i < t.len() && (#[trigger] t[i]).0 == m {
        let i = choose|i: int| 0 <= i < t.len() && (#[trigger] t[i]).0 == m;
        lemma_coeff_at(t, i, p);
    } else {
        lemma_coeff_absent(t, m);
    }
}

/// A normal form is determined by its coefficients.
pub proof fn lemma_terms_unique(a: Terms, b: Terms, p: int)
    requires
        p > 0,
        terms_wf(a, p),
        terms_wf(b, p),
        forall|m: Mono| mono_wf(m) ==> #[trigger] coeff(a, m) == coeff(b, m),
    ensures
        a == b,
    decreases a.len() + b.len(),
{
    if a.len() == 0 {
        if b.len() > 0 {
            lemma_coeff_at(b, 0, p);
            assert(coeff(a, b[0].0) == 0);
        }
        assert(a =~= b);
    } else if b.len() == 0 {
        lemma_coeff_at(a, 0, p);
        assert(coeff(a, a[0].0) == coeff(b, a[0].0));
        assert(coeff(b, a[0].0) == 0);
    } else {
        let x = a.last().0;
        let y = b.last().0;
        lemma_coeff_at(a, a.len() - 1, p);
        lemma_coeff_at(b, b.len() - 1, p);
        assert(coeff(a, x) == coeff(b, x));
        assert(coeff(a, y) == coeff(b, y));
        lemma_mono_less_total(x, y);
        if mono_less(x, y) {
            lemma_coeff_bounds(a, y, p);
            let i = choose|i: int| 0 <= i < a.len() && (#[trigger] a[i]).0 == y;
            lemma_mono_less_irreflexive(y);
            if i < a.len() - 1 {
                assert(mono_less(a[i].0, a[a.len() - 1].0));
                lemma_mono_less_transitive(y, x, y);
            }
        } else if mono_less(y, x) {
            lemma_coeff_bounds(b, x, p);
            let i = choose|i: int| 0 <= i < b.len() && (#[trigger] b[i]).0 == x;
            lemma_mono_less_irreflexive(x);
            if i < b.len() - 1 {
                assert(mono_less(b[i].0, b[b.len() - 1].0));
                lemma_mono_less_transitive(x, y, x);
            }
        } else {
            assert(a.last() == b.last());
            assert(a.drop_last() =~= a.subrange(0, a.len() - 1));
            assert(b.drop_last() =~= b.subrange(0, b.len() - 1));
            lemma_subrange_wf(a, 0, a.len() - 1, p);
            lemma_subrange_wf(b, 0, b.len() - 1, p);
            assert forall|m: Mono| mono_wf(m) implies #[trigger] coeff(a.drop_last(), m) == coeff(
                b.drop_last(),
                m,
            ) by {
                assert(coeff(a, m) == coeff(b, m));
            }
            lemma_terms_unique(a.drop_last(), b.drop_last(), p);
            assert(a =~= a.drop_last().push(a.last()));
            assert(b =~= b.drop_last().push(b.last()));
        }
    }
}

/// The exponents of a concatenation.
pub proof fn lemma_exponent_concat(a: Mono, b: Mono, v: Variable)
    ensures
        exponent(a + b, v) == exponent(a, v) + exponent(b, v),
    decreases a.len(),
{
    if a.len() == 0 {
        assert(a + b =~= b);
    } else {
        assert((a + b).drop_first() =~= a.drop_first() + b);
        lemma_exponent_concat(a.drop_first(), b, v);
    }
}

/// The exponents of a single factor.
pub proof fn lemma_exponent_single(f: (Variable, int), v: Variable)
    ensures
        exponent(seq![f], v) == if f.0 == v {
            f.1
        } else {
            0
        },
{
    assert(seq![f].drop_first() =~= Seq::<(Variable, int)>::empty());
    reveal_with_fuel(exponent, 2);
}

/// The order of terms: by monomial, then by coefficient.
pub open spec fn term_less(a: (Mono, int), b: (Mono, int)) -> bool {
    mono_less(a.0, b.0) || (a.0 == b.0 && a.1 < b.1)
}

/// The order of sums: lexicographic in their terms.
pub open spec fn terms_less(a: Terms, b: Terms) -> bool
    decreases a.len(),
{
    if b.len() == 0 {
        false
    } else if a.len() == 0 {
        true
    } else if a[0] == b[0] {
        terms_less(a.drop_first(), b.drop_first())
    } else {
        term_less(a[0], b[0])
    }
}

/// The order of sums is irreflexive.
pub proof fn lemma_terms_less_irreflexive(a: Terms)
    ensures
        !terms_less(a, a),
    decreases a.len(),
{
    if a.len() > 0 {
        lemma_terms_less_irreflexive(a.drop_first());
    }
}

/// The order of sums is transitive.
pub proof fn lemma_terms_less_transitive(a: Terms, b: Terms, c: Terms)
    requires
        terms_less(a, b),
        terms_less(b, c),
    ensures
        terms_less(a, c),
    decreases a.len(),
{
    if a.len() > 0 {
        if a[0] == b[0] && b[0] == c[0] {
            lemma_terms_less_transitive(a.drop_first(), b.drop_first(), c.drop_first());
        } else if a[0] != b[0] && b[0] != c[0] {
            if mono_less(a[0].0, b[0].0) && mono_less(b[0].0, c[0].0) {
                lemma_mono_less_transitive(a[0].0, b[0].0, c[0].0);
                lemma_mono_less_irreflexive(a[0].0);
            } else if mono_less(a[0].0, b[0].0) {
                lemma_mono_less_irreflexive(a[0].0);
            } else if mono_less(b[0].0, c[0].0) {
                lemma_mono_less_irreflexive(a[0].0);
            }
        }
    }
}

/// The order of sums is total.
pub proof fn lemma_terms_less_total(a: Terms, b: Terms)
    ensures
        terms_less(a, b) || terms_less(b, a) || a == b,
    decreases a.len(),
{
    if a.len() == 0 || b.len() == 0 {
        if a.len() == 0 && b.len() == 0 {
            assert(a =~= b);
        }
    } else if a[0] == b[0] {
        lemma_terms_less_total(a.drop_first(), b.drop_first());
        if a.drop_first() == b.drop_first() {
            assert(a =~= seq![a[0]] + a.drop_first());
            assert(b =~= seq![b[0]] + b.drop_first());
        }
    } else {
        lemma_mono_less_total(a[0].0, b[0].0);
    }
}

/// The highest power of `v` that divides some monomial of `t` from below: the opposite of the lowest
/// exponent of `v`, or zero if no exponent is negative.
pub open spec fn clearing(t: Terms, v: Variable) -> int
    decreases t.len(),
{
    if t.len() == 0 {
        0
    } else if clearing(t.drop_last(), v) < -exponent(t.last().0, v) {
        -exponent(t.last().0, v)
    } else {
        clearing(t.drop_last(), v)
    }
}

/// `k` is the smallest monomial that clears the denominators of `t`.
pub open spec fn is_clearing(k: Mono, t: Terms) -> bool {
    &&& mono_wf(k)
    &&& forall|v: Variable| #[trigger] exponent(k, v) == clearing(t, v)
}

/// Clearing makes all exponents non-negative.
pub proof fn lemma_clearing_member(t: Terms, i: int, v: Variable)
    requires
        0 <= i < t.len(),
    ensures
        exponent(t[i].0, v) + clearing(t, v) >= 0,
    decreases t.len(),
{
    if i < t.len() - 1 {
        assert(t.drop_last()[i] == t[i]);
        lemma_clearing_member(t.drop_last(), i, v);
    }
}

/// Clearing never divides.
pub proof fn lemma_clearing_nonnegative(t: Terms, v: Variable)
    ensures
        clearing(t, v) >= 0,
    decreases t.len(),
{
    if t.len() > 0 {
        lemma_clearing_nonnegative(t.drop_last(), v);
    }
}

} // verus!
