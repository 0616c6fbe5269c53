//! Every sum of monomials has a normal form.
use crate::arith::{lemma_mod_add, lemma_small};
use crate::expr::is_normal_form;
use crate::parser::normal_form;
use crate::terms::{
    coeff, lemma_coeff_absent, lemma_coeff_bounds, lemma_mono_less_irreflexive,
    lemma_mono_less_total, lemma_mono_less_transitive, lemma_subrange_wf, mono_less, mono_wf,
    monos_wf, terms_wf, Mono, Terms,
};
use vstd::prelude::*;

verus! {

/// The terms `r`, which are in normal form, with one more term added to them.
spec fn merged(r: Terms, m: Mono, c: int, p: int) -> Terms
    decreases r.len(),
{
    if r.len() == 0 {
        if c % p == 0 {
            r
        } else {
            r.push((m, c % p))
        }
    } else if r.last().0 == m {
        if (r.last().1 + c) % p == 0 {
            r.drop_last()
        } else {
            r.drop_last().push((m, (r.last().1 + c) % p))
        }
    } else if mono_less(r.last().0, m) {
        if c % p == 0 {
            r
        } else {
            r.push((m, c % p))
        }
    } else {
        merged(r.drop_last(), m, c, p).push(r.last())
    }
}

/// Every monomial of `r` comes before `m`.
spec fn all_before(r: Terms, m: Mono) -> bool {
    forall|i: int| 0 <= i < r.len() ==> mono_less((#[trigger] r[i]).0, m)
}

/// Terms in normal form with a later term behind them.
proof fn lemma_push_wf(r: Terms, x: (Mono, int), p: int)
    requires
        terms_wf(r, p),
        mono_wf(x.0),
        0 < x.1 < p,
        all_before(r, x.0),
    ensures
        terms_wf(r.push(x), p),
{
    let q = r.push(x);
    assert forall|i: int, j: int| 0 <= i < j < q.len() implies mono_less(
        (#[trigger] q[i]).0,
        (#[trigger] q[j]).0,
    ) by {
        assert(q[i] == r[i]);
    }
}

/// The coefficients of terms with a term behind them.
proof fn lemma_push_coeff(r: Terms, x: (Mono, int), k: Mono)
    ensures
        coeff(r.push(x), k) == coeff(r, k) + if x.0 == k {
            x.1
        } else {
            0
        },
{
    assert(r.push(x).drop_last() =~= r);
}

/// A monomial that comes after all others has no coefficient.
proof fn lemma_later_coeff(r: Terms, m: Mono)
    requires
        all_before(r, m),
    ensures
        coeff(r, m) == 0,
{
    lemma_mono_less_irreflexive(m);
    lemma_coeff_absent(r, m);
}

/// The terms but the last come before the last.
proof fn lemma_front(r: Terms, p: int)
    requires
        terms_wf(r, p),
        r.len() > 0,
    ensures
        terms_wf(r.drop_last(), p),
        all_before(r.drop_last(), r.last().0),
        mono_wf(r.last().0),
        0 < r.last().1 < p,
{
    let last = r.len() - 1;
    lemma_subrange_wf(r, 0, last, p);
    assert(r.drop_last() =~= r.subrange(0, last));
    assert forall|i: int| 0 <= i < r.drop_last().len() implies mono_less(
        (#[trigger] r.drop_last()[i]).0,
        r.last().0,
    ) by {
        assert(mono_less(r[i].0, r[last].0));
    }
}

/// Adding a term to a normal form gives a normal form, whose monomials come before those that all the
/// monomials came before.
proof fn lemma_merged(r: Terms, m: Mono, c: int, p: int)
    requires
        p > 1,
        terms_wf(r, p),
        mono_wf(m),
    ensures
        terms_wf(merged(r, m, c, p), p),
        forall|k: Mono| #[trigger]
            coeff(merged(r, m, c, p), k) == (coeff(r, k) + if k == m {
                c
            } else {
                0
            }) % p,
        forall|b: Mono| #[trigger]
            all_before(r, b) && mono_less(m, b) ==> all_before(merged(r, m, c, p), b),
    decreases r.len(),
{
    let q = merged(r, m, c, p);
    lemma_small(0, p);
    if r.len() == 0 {
        assert(all_before(r, m));
        if c % p != 0 {
            lemma_push_wf(r, (m, c % p), p);
        }
        assert forall|k: Mono| #[trigger] coeff(q, k) == (coeff(r, k) + if k == m {
            c
        } else {
            0
        }) % p by {
            lemma_push_coeff(r, (m, c % p), k);
        }
    } else {
        let front = r.drop_last();
        let last = r.last();
        lemma_front(r, p);
        lemma_later_coeff(front, last.0);
        assert forall|b: Mono| #[trigger] all_before(r, b) implies all_before(front, b)
            && mono_less(last.0, b) by {
            assert(r[r.len() - 1] == last);
            assert forall|i: int| 0 <= i < front.len() implies mono_less(
                (#[trigger] front[i]).0,
                b,
            ) by {
                assert(front[i] == r[i]);
            }
        }
        if last.0 == m {
            let d = (last.1 + c) % p;
            if d != 0 {
                lemma_push_wf(front, (m, d), p);
            }
            assert forall|k: Mono| #[trigger] coeff(q, k) == (coeff(r, k) + if k == m {
                c
            } else {
                0
            }) % p by {
                lemma_push_coeff(front, (m, d), k);
                lemma_coeff_bounds(front, k, p);
                lemma_small(coeff(front, k), p);
            }
        } else if mono_less(last.0, m) {
            assert forall|i: int| 0 <= i < r.len() implies mono_less((#[trigger] r[i]).0, m) by {
                if i < r.len() - 1 {
                    assert(mono_less(r[i].0, r[r.len() - 1].0));
                    lemma_mono_less_transitive(r[i].0, last.0, m);
                }
            }
            assert(all_before(r, m));
            lemma_later_coeff(r, m);
            if c % p != 0 {
                lemma_push_wf(r, (m, c % p), p);
            }
            assert forall|k: Mono| #[trigger] coeff(q, k) == (coeff(r, k) + if k == m {
                c
            } else {
                0
            }) % p by {
                lemma_push_coeff(r, (m, c % p), k);
                lemma_coeff_bounds(r, k, p);
                lemma_small(coeff(r, k), p);
            }
        } else {
            lemma_mono_less_total(last.0, m);
            lemma_merged(front, m, c, p);
            let inner = merged(front, m, c, p);
            assert(all_before(front, last.0));
            assert(all_before(inner, last.0));
            lemma_push_wf(inner, last, p);
            assert forall|k: Mono| #[trigger] coeff(q, k) == (coeff(r, k) + if k == m {
                c
            } else {
                0
            }) % p by {
                lemma_push_coeff(inner, last, k);
                assert(coeff(inner, k) == (coeff(front, k) + if k == m {
                    c
                } else {
                    0
                }) % p);
                lemma_small(last.1, p);
            }
            assert forall|b: Mono| #[trigger] all_before(r, b) && mono_less(m, b) implies all_before(
                q,
                b,
            ) by {
                assert(all_before(front, b));
                assert(all_before(inner, b));
            }
        }
    }
}

/// Every sum of monomials has a normal form.
pub proof fn law_normal_form_exists(t: Terms, p: int)
    requires
        p > 1,
        monos_wf(t),
    ensures
        is_normal_form(normal_form(t, p), t, p),
    decreases t.len(),
{
    if t.len() == 0 {
        lemma_small(0, p);
        assert(is_normal_form(t, t, p));
    } else {
        let front = t.drop_last();
        assert forall|i: int| 0 <= i < front.len() implies mono_wf((#[trigger] front[i]).0) by {
            assert(front[i] == t[i]);
        }
        assert(mono_wf(t[t.len() - 1].0));
        law_normal_form_exists(front, p);
        let r = normal_form(front, p);
        let (m, c) = t.last();
        lemma_merged(r, m, c, p);
        let q = merged(r, m, c, p);
        assert forall|k: Mono| #[trigger] coeff(q, k) == coeff(t, k) % p by {
            assert(coeff(r, k) == coeff(front, k) % p);
            lemma_mod_add(coeff(front, k), c, p);
            lemma_mod_add(coeff(front, k), 0, p);
        }
        assert(is_normal_form(q, t, p));
    }
}

} // verus!
