//! Operations on monomials.
use crate::terms::{mono_less, mono_mul, Mono};
use crate::variable::{variable_less, Variable};
use vstd::prelude::*;

verus! {

/// The factors of a monomial, ordered by variable.
pub type Factors = Vec<(Variable, isize)>;

/// The monomial that the given factors make up.
pub open spec fn mono_of(factors: Seq<(Variable, isize)>) -> Mono {
    Seq::new(factors.len(), |i: int| (factors[i].0, factors[i].1 as int))
}

/// `e` is in the range of [`isize`].
pub open spec fn fits_isize(e: int) -> bool {
    isize::MIN <= e <= isize::MAX
}

/// All exponents of `m` are in the range of [`isize`].
pub open spec fn exponents_fit(m: Mono) -> bool {
    forall|i: int| 0 <= i < m.len() ==> fits_isize((#[trigger] m[i]).1)
}

/// Copies a monomial.
pub fn copy_factors(factors: &Factors) -> (ret: Factors)
    ensures
        ret@ == factors@,
{
    let mut ret: Factors = Vec::new();
    let mut i: usize = 0;
    while i < factors.len()
        invariant
            i <= factors.len(),
            ret@ == factors@.subrange(0, i as int),
        decreases factors.len() - i,
    {
        ret.push(factors[i]);
        proof {
            assert(factors@.subrange(0, i + 1) =~= factors@.subrange(0, i as int).push(
                factors@[i as int],
            ));
        }
        i += 1;
    }
    proof {
        assert(factors@.subrange(0, factors@.len() as int) =~= factors@);
    }
    ret
}

/// Multiplies two monomials, or returns `None` if an exponent of the product is not in the range of
/// [`isize`].
pub fn checked_multiply_variables(lhs: &Factors, rhs: &Factors) -> (ret: Option<Factors>)
    ensures
        ret is Some <==> exponents_fit(mono_mul(mono_of(lhs@), mono_of(rhs@))),
        ret is Some ==> mono_of((ret->Some_0)@) == mono_mul(mono_of(lhs@), mono_of(rhs@)),
{
    let ghost a = mono_of(lhs@);
    let ghost b = mono_of(rhs@);
    let mut ret: Factors = Vec::new();
    let mut i: usize = 0;
    let mut j: usize = 0;
    proof {
        assert(a.subrange(0, a.len() as int) =~= a);
        assert(b.subrange(0, b.len() as int) =~= b);
        assert(mono_of(ret@) + mono_mul(a, b) =~= mono_mul(a, b));
    }
    while i < lhs.len() || j < rhs.len()
        invariant
            i <= lhs.len(),
            j <= rhs.len(),
            a == mono_of(lhs@),
            b == mono_of(rhs@),
            mono_of(ret@) + mono_mul(
                a.subrange(i as int, a.len() as int),
                b.subrange(j as int, b.len() as int),
            ) == mono_mul(a, b),
        decreases lhs.len() - i + rhs.len() - j,
    {
        let ghost x = a.subrange(i as int, a.len() as int);
        let ghost y = b.subrange(j as int, b.len() as int);
        let ghost before = ret@;
        proof {
            if i < lhs.len() {
                assert(x.drop_first() =~= a.subrange(i + 1, a.len() as int));
                assert(x[0] == (lhs@[i as int].0, lhs@[i as int].1 as int));
                assert(x =~= seq![x[0]] + x.drop_first());
            }
            if j < rhs.len() {
                assert(y.drop_first() =~= b.subrange(j + 1, b.len() as int));
                assert(y[0] == (rhs@[j as int].0, rhs@[j as int].1 as int));
                assert(y =~= seq![y[0]] + y.drop_first());
            }
        }
        if j == rhs.len() || (i < lhs.len() && variable_less(lhs[i].0, rhs[j].0)) {
            ret.push(lhs[i]);
            i += 1;
            proof {
                assert(mono_of(ret@) =~= mono_of(before) + seq![x[0]]);
                let rest = mono_mul(x.drop_first(), y);
                if y.len() == 0 {
                    assert(rest == x.drop_first()) by {
                        if x.drop_first().len() == 0 {
                            assert(y =~= x.drop_first());
                        }
                    }
                }
                assert(mono_mul(x, y) =~= seq![x[0]] + rest);
                assert(mono_of(before) + (seq![x[0]] + rest) =~= (mono_of(before) + seq![x[0]])
                    + rest);
            }
        } else if i == lhs.len() || variable_less(rhs[j].0, lhs[i].0) {
            ret.push(rhs[j]);
            j += 1;
            proof {
                assert(mono_of(ret@) =~= mono_of(before) + seq![y[0]]);
                let rest = mono_mul(x, y.drop_first());
                assert(mono_mul(x, y) =~= seq![y[0]] + rest);
                assert(mono_of(before) + (seq![y[0]] + rest) =~= (mono_of(before) + seq![y[0]])
                    + rest);
            }
        } else {
            proof {
                assert(x[0].0 == y[0].0);
                let e = x[0].1 + y[0].1;
                if e != 0 {
                    let k = mono_of(before).len() as int;
                    assert((mono_of(before) + mono_mul(x, y))[k] == (x[0].0, e));
                    assert(mono_mul(a, b)[k].1 == e);
                }
            }
            let total: i128 = lhs[i].1 as i128 + rhs[j].1 as i128;
            if total < isize::MIN as i128 || total > isize::MAX as i128 {
                return None;
            }
            let exponent: isize = total as isize;
            if exponent != 0 {
                ret.push((lhs[i].0, exponent));
            }
            i += 1;
            j += 1;
            proof {
                let rest = mono_mul(x.drop_first(), y.drop_first());
                if exponent != 0 {
                    let f = (x[0].0, exponent as int);
                    assert(mono_of(ret@) =~= mono_of(before) + seq![f]);
                    assert(mono_mul(x, y) =~= seq![f] + rest);
                    assert(mono_of(before) + (seq![f] + rest) =~= (mono_of(before) + seq![f])
                        + rest);
                } else {
                    assert(mono_mul(x, y) =~= rest);
                }
            }
        }
    }
    proof {
        let x = a.subrange(i as int, a.len() as int);
        let y = b.subrange(j as int, b.len() as int);
        assert(x.len() == 0 && y.len() == 0);
        assert(mono_of(ret@) + mono_mul(x, y) =~= mono_of(ret@));
        assert(exponents_fit(mono_of(ret@)));
    }
    Some(ret)
}

/// Multiplies two monomials.
pub fn multiply_variables(lhs: &Factors, rhs: &Factors) -> (ret: Factors)
    requires
        exponents_fit(mono_mul(mono_of(lhs@), mono_of(rhs@))),
    ensures
        mono_of(ret@) == mono_mul(mono_of(lhs@), mono_of(rhs@)),
{
    match checked_multiply_variables(lhs, rhs) {
        Some(product) => product,
        None => Vec::new(),
    }
}

/// The result of a comparison.
#[derive(Debug, Clone, Copy, PartialEq, Eq, Structural)]
pub enum Comparison {
    Less,
    Equal,
    Greater,
}

/// Compares two monomials.
pub fn compare_monomials(lhs: &Factors, rhs: &Factors) -> (ret: Comparison)
    ensures
        ret == Comparison::Less <==> mono_less(mono_of(lhs@), mono_of(rhs@)),
        ret == Comparison::Equal <==> mono_of(lhs@) == mono_of(rhs@),
        ret == Comparison::Equal <==> lhs@ == rhs@,
        ret == Comparison::Greater <==> mono_less(mono_of(rhs@), mono_of(lhs@)),
{
    let ghost a = mono_of(lhs@);
    let ghost b = mono_of(rhs@);
    let mut i: usize = 0;
    proof {
        assert(a.subrange(0, a.len() as int) =~= a);
        assert(b.subrange(0, b.len() as int) =~= b);
        crate::terms::lemma_mono_less_irreflexive(a);
        assert(lhs@ == rhs@ ==> a == b);
        if a == b {
            assert forall|k: int| 0 <= k < lhs@.len() implies lhs@[k] == rhs@[k] by {
                assert(a[k] == b[k]);
                assert(a[k] == (lhs@[k].0, lhs@[k].1 as int));
                assert(b[k] == (rhs@[k].0, rhs@[k].1 as int));
            }
            assert(a.len() == b.len());
            assert(lhs@ =~= rhs@);
        }
    }
    while i < lhs.len() && i < rhs.len()
        invariant
            i <= lhs.len(),
            i <= rhs.len(),
            a == mono_of(lhs@),
            b == mono_of(rhs@),
            a == b <==> lhs@ == rhs@,
            a.subrange(0, i as int) == b.subrange(0, i as int),
            mono_less(a, b) <==> mono_less(
                a.subrange(i as int, a.len() as int),
                b.subrange(i as int, b.len() as int),
            ),
            mono_less(b, a) <==> mono_less(
                b.subrange(i as int, b.len() as int),
                a.subrange(i as int, a.len() as int),
            ),
        decreases lhs.len() - i,
    {
        let ghost x = a.subrange(i as int, a.len() as int);
        let ghost y = b.subrange(i as int, b.len() as int);
        let f = lhs[i];
        let g = rhs[i];
        proof {
            assert(x[0] == a[i as int] && y[0] == b[i as int]);
            assert(x.drop_first() =~= a.subrange(i + 1, a.len() as int));
            assert(y.drop_first() =~= b.subrange(i + 1, b.len() as int));
            if a == b {
                assert(x == y);
            }
        }
        if variable_less(f.0, g.0) {
            return Comparison::Less;
        }
        if variable_less(g.0, f.0) {
            return Comparison::Greater;
        }
        if f.1 < g.1 {
            return Comparison::Less;
        }
        if g.1 < f.1 {
            return Comparison::Greater;
        }
        proof {
            assert(a.subrange(0, i + 1) =~= a.subrange(0, i as int).push(a[i as int]));
            assert(b.subrange(0, i + 1) =~= b.subrange(0, i as int).push(b[i as int]));
        }
        i += 1;
    }
    let ghost x = a.subrange(i as int, a.len() as int);
    let ghost y = b.subrange(i as int, b.len() as int);
    if i < rhs.len() {
        proof {
            assert(x.len() == 0);
            assert(a != b);
        }
        Comparison::Less
    } else if i < lhs.len() {
        proof {
            assert(y.len() == 0);
            assert(a != b);
        }
        Comparison::Greater
    } else {
        proof {
            assert(a =~= a.subrange(0, i as int));
            assert(b =~= b.subrange(0, i as int));
        }
        Comparison::Equal
    }
}

} // verus!
