//! Composition of constraint expressions with polynomials.
use crate::arith::{
    is_inverse, lemma_cong_add, lemma_cong_mul, lemma_cong_pow, lemma_inverse_unique, lemma_small,
    mod_pow,
};
use crate::assignment::Assignment;
use crate::expr::{canonical, lemma_degree_member, mono_degree, terms_degree, Constraint};
use crate::field::{Field, Scalar};
use crate::monomial::mono_of;
use crate::poly::{batch_eval, batch_size, max_domain_size, poly_eval, poly_views, Polynomial};
use crate::terms::{mono_has, mono_value, terms_have, terms_value, weighted_sum, Mono, Terms};
use crate::variable::{magnitude, Variable};
use vstd::arithmetic::div_mod::lemma_mod_twice;
use vstd::arithmetic::power::{lemma_pow0, lemma_pow1, lemma_pow_adds, pow};
use vstd::prelude::*;

verus! {

/// The values at `x` of the polynomials that variables are replaced with.
pub open spec fn poly_valuation(s: Map<Variable, Polynomial>, x: int) -> spec_fn(Variable) -> int {
    |v: Variable| poly_eval(s[v]@, x)
}

/// All variables of `t` are replaced with polynomials of at most `n` coefficients, and the
/// composition has a degree that can be handled.
pub open spec fn composable(t: Terms, s: Map<Variable, Polynomial>, n: int) -> bool {
    &&& n >= 1
    &&& forall|v: Variable| #[trigger] terms_have(t, v) ==> s.contains_key(v) && s[v]@.len() <= n
    &&& terms_degree(t) * (n - 1) + 1 <= max_domain_size()
}

/// One more polynomial in a batch.
proof fn lemma_batch_push(polys: Seq<Seq<int>>, q: Seq<int>, x: int)
    ensures
        batch_eval(polys.push(q), x) == batch_eval(polys, x) * poly_eval(q, x),
        batch_size(polys.push(q)) == batch_size(polys) + if q.len() == 0 {
            0
        } else {
            q.len() - 1
        },
{
    assert(polys.push(q).drop_last() =~= polys);
}

/// Degrees of monomials are not negative in canonical form.
proof fn lemma_degree_nonnegative(m: Mono)
    requires
        forall|j: int| 0 <= j < m.len() ==> (#[trigger] m[j]).1 >= 0,
    ensures
        mono_degree(m) >= 0,
    decreases m.len(),
{
    if m.len() > 0 {
        let init = m.drop_last();
        assert forall|j: int| 0 <= j < init.len() implies (#[trigger] init[j]).1 >= 0 by {
            assert(init[j] == m[j]);
        }
        assert(m.last() == m[m.len() - 1]);
        lemma_degree_nonnegative(init);
    }
}

impl Constraint<Scalar> {
    /// Replaces the variables of one monomial.
    fn compose_term(&self, index: usize, substitution: &Assignment<Polynomial>) -> (ret: Polynomial)
        requires
            index < self@.len(),
            canonical(self@),
            exists|n: int| #[trigger] composable(self@, substitution@, n),
        ensures
            forall|x: int| #[trigger]
                poly_eval(ret@, x) % Scalar::modulus() == (self@[index as int].1 * mono_value(
                    self@[index as int].0,
                    poly_valuation(substitution@, x),
                    Scalar::modulus(),
                )) % Scalar::modulus(),
            forall|n: int| #[trigger]
                composable(self@, substitution@, n) ==> ret@.len() <= terms_degree(self@) * (n - 1)
                    + 1,
    {
        let ghost t = self@;
        let ghost p = Scalar::modulus();
        let ghost bound = choose|n: int| #[trigger] composable(t, substitution@, n);
        let term = self.term(index);
        let factors = &term.factors;
        let ghost m = t[index as int].0;
        let ghost s = substitution@;
        let mut batch: Vec<&Polynomial> = Vec::new();
        let mut j: usize = 0;
        proof {
            Scalar::lemma_modulus();
            lemma_small(1, p);
            assert(poly_views(batch@) =~= seq![]);
            assert(m.subrange(0, 0) =~= seq![]);
            lemma_degree_member(t, index as int);
            assert forall|k: int| 0 <= k < m.len() implies (#[trigger] m[k]).1 >= 0 by {
                assert(t[index as int].0[k].1 >= 0);
            }
        }
        while j < factors.len()
            invariant
                j <= factors.len(),
                index < t.len(),
                t == self@,
                s == substitution@,
                p == Scalar::modulus(),
                p > 1,
                m == t[index as int].0,
                m == mono_of(factors@),
                forall|k: int| 0 <= k < m.len() ==> (#[trigger] m[k]).1 >= 0,
                composable(t, s, bound),
                forall|x: int| #[trigger]
                    batch_eval(poly_views(batch@), x) % p == mono_value(
                        m.subrange(0, j as int),
                        poly_valuation(s, x),
                        p,
                    ) % p,
                forall|n: int| #[trigger]
                    composable(t, s, n) ==> batch_size(poly_views(batch@)) <= mono_degree(
                        m.subrange(0, j as int),
                    ) * (n - 1) + 1,
            decreases factors.len() - j,
        {
            let variable = factors[j].0;
            let exponent: usize = magnitude(factors[j].1);
            proof {
                assert(m[j as int] == (variable, exponent as int));
                assert(mono_has(t[index as int].0, variable));
                assert(terms_have(t, variable));
                let prefix = m.subrange(0, j + 1);
                assert(prefix.drop_last() =~= m.subrange(0, j as int));
                assert(prefix.last() == (variable, exponent as int));
            }
            match substitution.get(variable) {
                Some(polynomial) => {
                    let ghost q = polynomial@;
                    let ghost before = poly_views(batch@);
                    let mut k: usize = 0;
                    proof {
                        assert forall|x: int| #[trigger]
                            batch_eval(poly_views(batch@), x) == batch_eval(before, x) * pow(
                                poly_eval(q, x),
                                k as nat,
                            ) by {
                            lemma_pow0(poly_eval(q, x));
                        }
                    }
                    while k < exponent
                        invariant
                            k <= exponent,
                            q == polynomial@,
                            forall|x: int| #[trigger]
                                batch_eval(poly_views(batch@), x) == batch_eval(before, x) * pow(
                                    poly_eval(q, x),
                                    k as nat,
                                ),
                            batch_size(poly_views(batch@)) == batch_size(before) + k * (
                            if q.len() == 0 {
                                0
                            } else {
                                q.len() - 1
                            }),
                        decreases exponent - k,
                    {
                        let ghost sofar = poly_views(batch@);
                        batch.push(polynomial);
                        proof {
                            assert(poly_views(batch@) =~= sofar.push(q));
                            let d: int = if q.len() == 0 {
                                0
                            } else {
                                q.len() - 1
                            };
                            assert(k * d + d == (k + 1) * d) by (nonlinear_arith);
                            assert forall|x: int| #[trigger]
                                batch_eval(poly_views(batch@), x) == batch_eval(before, x) * pow(
                                    poly_eval(q, x),
                                    (k + 1) as nat,
                                ) by {
                                lemma_batch_push(sofar, q, x);
                                lemma_pow_adds(poly_eval(q, x), k as nat, 1);
                                lemma_pow1(poly_eval(q, x));
                                let (u, v, w) = (
                                    batch_eval(before, x),
                                    pow(poly_eval(q, x), k as nat),
                                    poly_eval(q, x),
                                );
                                assert(batch_eval(sofar, x) == u * v);
                                assert((u * v) * w == u * (v * w)) by (nonlinear_arith);
                            }
                            lemma_batch_push(sofar, q, 0);
                        }
                        k += 1;
                    }
                    proof {
                        let prefix = m.subrange(0, j + 1);
                        assert forall|x: int| #[trigger]
                            batch_eval(poly_views(batch@), x) % p == mono_value(
                                prefix,
                                poly_valuation(s, x),
                                p,
                            ) % p by {
                            let e = poly_eval(q, x);
                            let u = mono_value(m.subrange(0, j as int), poly_valuation(s, x), p);
                            assert(batch_eval(before, x) % p == u % p);
                            lemma_mod_twice(pow(e, exponent as nat), p);
                            lemma_cong_mul(
                                batch_eval(before, x),
                                u,
                                pow(e, exponent as nat),
                                pow(e, exponent as nat) % p,
                                p,
                            );
                        }
                        assert forall|n: int| #[trigger] composable(t, s, n) implies batch_size(
                            poly_views(batch@),
                        ) <= mono_degree(prefix) * (n - 1) + 1 by {
                            let d: int = if q.len() == 0 {
                                0
                            } else {
                                q.len() - 1
                            };
                            let g = mono_degree(m.subrange(0, j as int));
                            assert(d <= n - 1);
                            assert(exponent * d + g * (n - 1) <= (g + exponent) * (n - 1))
                                by (nonlinear_arith)
                                requires
                                    d <= n - 1,
                                    exponent >= 0,
                            ;
                        }
                    }
                },
                None => {},
            }
            j += 1;
        }
        proof {
            assert(m.subrange(0, m.len() as int) =~= m);
            lemma_degree_nonnegative(m);
            assert forall|n: int| #[trigger] composable(t, s, n) implies batch_size(
                poly_views(batch@),
            ) <= terms_degree(t) * (n - 1) + 1 by {
                assert(mono_degree(m) * (n - 1) <= terms_degree(t) * (n - 1)) by (nonlinear_arith)
                    requires
                        mono_degree(m) <= terms_degree(t),
                        n >= 1,
                ;
            }
            assert(composable(t, s, bound));
        }
        let product = if batch.len() == 1 {
            proof {
                let q = batch@[0]@;
                assert(poly_views(batch@) =~= seq![q]);
                assert forall|x: int| #[trigger] poly_eval(q, x) == batch_eval(
                    poly_views(batch@),
                    x,
                ) by {
                    assert(Seq::<Seq<int>>::empty().push(q) =~= seq![q]);
                    lemma_batch_push(Seq::empty(), q, x);
                }
                assert(Seq::<Seq<int>>::empty().push(q) =~= seq![q]);
                lemma_batch_push(Seq::empty(), q, 0);
            }
            batch[0].copy()
        } else {
            Polynomial::multiply_batch(&batch)
        };
        let ret = product.scaled(term.coefficient);
        proof {
            assert forall|x: int| #[trigger]
                poly_eval(ret@, x) % p == (t[index as int].1 * mono_value(
                    m,
                    poly_valuation(s, x),
                    p,
                )) % p by {
                let c = t[index as int].1;
                let u = mono_value(m, poly_valuation(s, x), p);
                assert(poly_eval(product@, x) % p == batch_eval(poly_views(batch@), x) % p);
                lemma_cong_mul(poly_eval(product@, x), u, c, c, p);
                assert(u * c == c * u) by (nonlinear_arith);
            }
        }
        ret
    }

    /// Creates a [`Polynomial`] by replacing the [`Variable`]s in this constraint expression with
    /// the corresponding polynomials. The constraint must be canonical.
    pub fn compose2(&self, substitution: &Assignment<Polynomial>) -> (ret: Polynomial)
        requires
            canonical(self@),
            exists|n: int| #[trigger] composable(self@, substitution@, n),
        ensures
            forall|x: int| #[trigger]
                poly_eval(ret@, x) % Scalar::modulus() == terms_value(
                    self@,
                    poly_valuation(substitution@, x),
                    Scalar::modulus(),
                ) % Scalar::modulus(),
            forall|n: int| #[trigger]
                composable(self@, substitution@, n) ==> ret@.len() <= terms_degree(self@) * (n - 1)
                    + 1,
    {
        let ghost t = self@;
        let ghost p = Scalar::modulus();
        let ghost s = substitution@;
        let mut result = Polynomial::zero();
        let mut i: usize = 0;
        proof {
            Scalar::lemma_modulus();
            assert(t.subrange(0, 0) =~= seq![]);
            lemma_degree_terms_nonnegative(t);
            assert forall|n: int| #[trigger] composable(t, s, n) implies result@.len()
                <= terms_degree(t) * (n - 1) + 1 by {
                assert(terms_degree(t) * (n - 1) >= 0) by (nonlinear_arith)
                    requires
                        terms_degree(t) >= 0,
                        n >= 1,
                ;
            }
        }
        while i < self.num_terms()
            invariant
                i <= t.len(),
                t == self@,
                s == substitution@,
                p == Scalar::modulus(),
                p > 1,
                canonical(t),
                exists|n: int| #[trigger] composable(t, s, n),
                forall|x: int| #[trigger]
                    poly_eval(result@, x) % p == weighted_sum(
                        t.subrange(0, i as int),
                        |m: Mono| mono_value(m, poly_valuation(s, x), p),
                    ) % p,
                forall|n: int| #[trigger]
                    composable(t, s, n) ==> result@.len() <= terms_degree(t) * (n - 1) + 1,
            decreases t.len() - i,
        {
            let term = self.compose_term(i, substitution);
            let ghost before = result@;
            result = result.plus(&term);
            proof {
                let prefix = t.subrange(0, i + 1);
                assert(prefix.drop_last() =~= t.subrange(0, i as int));
                assert(prefix.last() == t[i as int]);
                assert forall|x: int| #[trigger]
                    poly_eval(result@, x) % p == weighted_sum(
                        prefix,
                        |m: Mono| mono_value(m, poly_valuation(s, x), p),
                    ) % p by {
                    let w = |m: Mono| mono_value(m, poly_valuation(s, x), p);
                    assert(poly_eval(before, x) % p == weighted_sum(t.subrange(0, i as int), w)
                        % p);
                    lemma_cong_add(
                        poly_eval(before, x),
                        weighted_sum(t.subrange(0, i as int), w),
                        poly_eval(term@, x),
                        t[i as int].1 * mono_value(t[i as int].0, poly_valuation(s, x), p),
                        p,
                    );
                }
            }
            i += 1;
        }
        proof {
            assert(t.subrange(0, t.len() as int) =~= t);
        }
        result
    }
}

/// Degrees are not negative.
pub proof fn lemma_degree_terms_nonnegative(t: Terms)
    ensures
        terms_degree(t) >= 0,
    decreases t.len(),
{
    if t.len() > 0 {
        lemma_degree_terms_nonnegative(t.drop_last());
    }
}

impl Variable {
    /// Used by [`Constraint::compose`] when replacing variables with column polynomials: shifts the
    /// column so that its value at `x` is the original's at `x` times `omega` raised to the
    /// rotation.
    pub fn rotate_column(&self, column: &Polynomial, omega: Scalar, omega_inv: Scalar) -> (ret:
        Polynomial)
        requires
            is_inverse(omega.value(), omega_inv.value(), Scalar::modulus()),
        ensures
            ret@.len() == column@.len(),
            forall|x: int| #[trigger]
                poly_eval(ret@, x) % Scalar::modulus() == poly_eval(
                    column@,
                    mod_pow(omega.value(), self.rotation as int, Scalar::modulus()) * x,
                ) % Scalar::modulus(),
    {
        let ghost p = Scalar::modulus();
        proof {
            Scalar::lemma_modulus();
            lemma_inverse_unique(omega.value(), omega_inv.value(), p);
        }
        if self.rotation < 0 {
            column.shift_domain_by(omega_inv.pow(magnitude(self.rotation)))
        } else if self.rotation > 0 {
            column.shift_domain_by(omega.pow(magnitude(self.rotation)))
        } else {
            let ret = column.copy();
            proof {
                lemma_pow0(omega.value());
                lemma_small(1, p);
                let one = mod_pow(omega.value(), self.rotation as int, p);
                assert forall|x: int| #[trigger] poly_eval(ret@, x) % p == poly_eval(
                    column@,
                    one * x,
                ) % p by {
                    assert(one * x == x) by (nonlinear_arith)
                        requires
                            one == 1,
                    ;
                }
            }
            ret
        }
    }
}

/// The values at `x` of the columns that variables stand for, each at the rotated position.
pub open spec fn column_valuation(columns: Seq<Polynomial>, omega: int, x: int) -> spec_fn(
    Variable,
) -> int {
    |v: Variable|
        poly_eval(
            columns[v.column_index as int]@,
            mod_pow(omega, v.rotation as int, Scalar::modulus()) * x,
        )
}

/// All variables of `t` are columns of at most `n` coefficients, and the composition has a degree
/// that can be handled.
pub open spec fn columns_composable(t: Terms, columns: Seq<Polynomial>, n: int) -> bool {
    &&& n >= 1
    &&& forall|v: Variable| #[trigger]
        terms_have(t, v) ==> v.column_index < columns.len() && columns[v.column_index as int]@.len()
            <= n
    &&& terms_degree(t) * (n - 1) + 1 <= max_domain_size()
}

/// `v` is replaced with its column, rotated.
pub open spec fn rotated(
    s: Map<Variable, Polynomial>,
    v: Variable,
    columns: Seq<Polynomial>,
    omega: int,
    n: int,
) -> bool {
    &&& s.contains_key(v)
    &&& s[v]@.len() <= n
    &&& forall|x: int| #[trigger]
        poly_eval(s[v]@, x) % Scalar::modulus() == column_valuation(columns, omega, x)(v)
            % Scalar::modulus()
}

/// The value of a monomial only depends on the residues of the values of its variables.
pub proof fn lemma_mono_value_cong(
    m: Mono,
    s: spec_fn(Variable) -> int,
    u: spec_fn(Variable) -> int,
    p: int,
)
    requires
        p > 0,
        forall|j: int| 0 <= j < m.len() ==> (#[trigger] m[j]).1 >= 0,
        forall|j: int| 0 <= j < m.len() ==> s((#[trigger] m[j]).0) % p == u(m[j].0) % p,
    ensures
        mono_value(m, s, p) == mono_value(m, u, p),
    decreases m.len(),
{
    if m.len() > 0 {
        let init = m.drop_last();
        assert forall|j: int| 0 <= j < init.len() implies (#[trigger] init[j]).1 >= 0 && s(init[j].0)
            % p == u(init[j].0) % p by {
            assert(init[j] == m[j]);
        }
        assert(m.last() == m[m.len() - 1]);
        lemma_mono_value_cong(init, s, u, p);
        lemma_cong_pow(s(m.last().0), u(m.last().0), m.last().1 as nat, p);
    }
}

/// The value of a canonical expression only depends on the residues of the values of its variables.
pub proof fn lemma_terms_value_cong(
    t: Terms,
    s: spec_fn(Variable) -> int,
    u: spec_fn(Variable) -> int,
    p: int,
)
    requires
        p > 0,
        canonical(t),
        forall|v: Variable| #[trigger] terms_have(t, v) ==> s(v) % p == u(v) % p,
    ensures
        terms_value(t, s, p) == terms_value(t, u, p),
{
    let f = |m: Mono| mono_value(m, s, p);
    let g = |m: Mono| mono_value(m, u, p);
    assert forall|i: int| 0 <= i < t.len() implies f((#[trigger] t[i]).0) == g(t[i].0) by {
        let m = t[i].0;
        assert forall|j: int| 0 <= j < m.len() implies (#[trigger] m[j]).1 >= 0 && s(m[j].0) % p
            == u(m[j].0) % p by {
            assert(t[i].0[j].1 >= 0);
            assert(mono_has(t[i].0, m[j].0));
            assert(terms_have(t, m[j].0));
        }
        lemma_mono_value_cong(m, s, u, p);
    }
    crate::algebra::lemma_weighted_eq(t, f, g);
}

impl Constraint<Scalar> {
    /// Creates a [`Polynomial`] by replacing the [`Variable`]s in this constraint expression with
    /// the corresponding witness column polynomials via polynomial composition.
    ///
    /// The `substitution` array contains one polynomial for every witness column and must provide
    /// polynomials for all the columns referred to by the `Constraint`.
    ///
    /// `omega` is the root of unity used in the proof and is used to shift the column polynomials
    /// forward or backward in case one or more variables in the constraint have a non-zero
    /// rotation. Given a rotation offset `r`, shifting works by multiplying all coefficients of a
    /// column by powers of `omega^r`, with negative values of `r` performing modular inversion.
    pub fn compose(&self, omega: Scalar, substitution: &Vec<Polynomial>) -> (ret: Polynomial)
        requires
            canonical(self@),
            omega.value() != 0,
            exists|n: int| #[trigger] columns_composable(self@, substitution@, n),
        ensures
            forall|x: int| #[trigger]
                poly_eval(ret@, x) % Scalar::modulus() == terms_value(
                    self@,
                    column_valuation(substitution@, omega.value(), x),
                    Scalar::modulus(),
                ) % Scalar::modulus(),
    {
        let ghost t = self@;
        let ghost p = Scalar::modulus();
        let ghost bound = choose|n: int| #[trigger] columns_composable(t, substitution@, n);
        let mut columns: Assignment<Polynomial> = Assignment::new();
        let omega_inv = match omega.invert() {
            Some(omega_inv) => omega_inv,
            None => omega,
        };
        let variables = self.get_free_variables();
        let mut i: usize = 0;
        while i < variables.len()
            invariant
                i <= variables.len(),
                t == self@,
                p == Scalar::modulus(),
                is_inverse(omega.value(), omega_inv.value(), p),
                columns_composable(t, substitution@, bound),
                forall|v: Variable| #[trigger] variables@.contains(v) <==> terms_have(t, v),
                forall|k: int|
                    0 <= k < i ==> rotated(
                        columns@,
                        #[trigger] variables@[k],
                        substitution@,
                        omega.value(),
                        bound,
                    ),
            decreases variables.len() - i,
        {
            let variable = variables[i];
            proof {
                assert(variables@.contains(variable));
                assert(terms_have(t, variable));
            }
            let column = variable.rotate_column(
                &substitution[variable.column_index()],
                omega,
                omega_inv,
            );
            let ghost before = columns@;
            columns.insert(variable, column);
            proof {
                assert forall|k: int| 0 <= k < i + 1 implies rotated(
                    columns@,
                    #[trigger] variables@[k],
                    substitution@,
                    omega.value(),
                    bound,
                ) by {
                    if variables@[k] == variable {
                        assert(columns@[variable] == column);
                    } else {
                        assert(rotated(before, variables@[k], substitution@, omega.value(), bound));
                    }
                }
            }
            i += 1;
        }
        proof {
            assert forall|v: Variable| #[trigger] terms_have(t, v) implies columns@.contains_key(v)
                && columns@[v]@.len() <= bound by {
                assert(variables@.contains(v));
                let k = choose|k: int| 0 <= k < variables@.len() && variables@[k] == v;
                assert(rotated(columns@, variables@[k], substitution@, omega.value(), bound));
            }
            assert(composable(t, columns@, bound));
        }
        let ret = self.compose2(&columns);
        proof {
            Scalar::lemma_modulus();
            assert forall|x: int| #[trigger]
                poly_eval(ret@, x) % p == terms_value(
                    t,
                    column_valuation(substitution@, omega.value(), x),
                    p,
                ) % p by {
                let a = poly_valuation(columns@, x);
                let b = column_valuation(substitution@, omega.value(), x);
                assert forall|v: Variable| #[trigger] terms_have(t, v) implies a(v) % p == b(v) % p by {
                    assert(variables@.contains(v));
                    let k = choose|k: int| 0 <= k < variables@.len() && variables@[k] == v;
                    assert(rotated(columns@, variables@[k], substitution@, omega.value(), bound));
                    assert(poly_eval(columns@[v]@, x) % p == b(v) % p);
                }
                lemma_terms_value_cong(t, a, b, p);
            }
        }
        ret
    }
}

} // verus!
