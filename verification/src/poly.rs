//! Polynomials in one indeterminate over the BlueSky field.
use crate::arith::{lemma_cong_add, lemma_cong_mul, lemma_mod_mul, lemma_small};
use crate::field::{one, zero, Field, Scalar};
use crate::utils::is_power_of_two;
use crate::witness::residues;
use starkom_ff::Field256;
use vstd::arithmetic::power::{lemma_pow0, lemma_pow1, lemma_pow_adds, pow};
use vstd::prelude::*;

verus! {

/// The largest size of an evaluation domain: the order of the BlueSky field minus one is divisible
/// by this power of two, and by no larger one.
pub open spec fn max_domain_size() -> int {
    0x4000_0000_0000_0000
}

/// The root of unity that generates the largest evaluation domain.
pub open spec fn bluesky_root() -> int {
    0x2772569d549e1249ca6891eceba43568f6e0a747a2afe898b3977ca1a5bbfc9cint
}

/// The root of unity that generates the evaluation domain of size `n`, a power of two.
pub open spec fn domain_root(n: int) -> int {
    pow(bluesky_root(), (max_domain_size() / n) as nat) % Scalar::modulus()
}

/// The value of the polynomial with the given coefficients, in ascending order, at `x`.
pub open spec fn poly_eval(c: Seq<int>, x: int) -> int
    decreases c.len(),
{
    if c.len() == 0 {
        0
    } else {
        c[0] + x * poly_eval(c.drop_first(), x)
    }
}

/// The product of the values of several polynomials at `x`.
pub open spec fn batch_eval(polys: Seq<Seq<int>>, x: int) -> int
    decreases polys.len(),
{
    if polys.len() == 0 {
        1
    } else {
        batch_eval(polys.drop_last(), x) * poly_eval(polys.last(), x)
    }
}

/// An upper bound on the number of coefficients of the product of several polynomials.
pub open spec fn batch_size(polys: Seq<Seq<int>>) -> int
    decreases polys.len(),
{
    if polys.len() == 0 {
        1
    } else {
        batch_size(polys.drop_last()) + if polys.last().len() == 0 {
            0
        } else {
            polys.last().len() - 1
        }
    }
}

/// The polynomial is zero on the whole evaluation domain of size `n`.
pub open spec fn vanishes(c: Seq<int>, n: int) -> bool {
    forall|i: nat|
        i < n ==> #[trigger] poly_eval(c, pow(domain_root(n), i)) % Scalar::modulus() == 0
}

/// The polynomial is 1 at the first element of the evaluation domain of size `n`, and 0 at the
/// others.
pub open spec fn is_lagrange0(c: Seq<int>, n: int) -> bool {
    let p = Scalar::modulus();
    &&& c.len() <= n
    &&& poly_eval(c, 1) % p == 1
    &&& forall|i: nat| 0 < i < n ==> #[trigger] poly_eval(c, pow(domain_root(n), i)) % p == 0
    &&& forall|x: int|
        (n * (x - 1) * #[trigger] poly_eval(c, x)) % p == (pow(x, n as nat) - 1) % p
}

/// A polynomial expressed as an array of scalar coefficients in ascending degree order (i.e. the
/// first coefficient is the constant term).
#[derive(Debug)]
pub struct Polynomial {
    /// The coefficients.
    pub coefficients: Vec<Scalar>,
}

impl View for Polynomial {
    type V = Seq<int>;

    open spec fn view(&self) -> Seq<int> {
        residues(self.coefficients@)
    }
}

/// The coefficients of several polynomials.
pub open spec fn poly_views(polys: Seq<&Polynomial>) -> Seq<Seq<int>> {
    Seq::new(polys.len(), |i: int| polys[i]@)
}

/// The coefficients of a list of polynomials.
pub open spec fn coefficient_lists(polynomials: Seq<Polynomial>) -> Seq<Seq<int>> {
    Seq::new(polynomials.len(), |i: int| polynomials[i]@)
}

/// The value at `x` modulo the order of the field only depends on the residue of `x`.
pub proof fn lemma_eval_cong(c: Seq<int>, x: int, y: int, p: int)
    requires
        p > 0,
        x % p == y % p,
    ensures
        poly_eval(c, x) % p == poly_eval(c, y) % p,
    decreases c.len(),
{
    if c.len() > 0 {
        lemma_eval_cong(c.drop_first(), x, y, p);
        lemma_cong_mul(x, y, poly_eval(c.drop_first(), x), poly_eval(c.drop_first(), y), p);
        lemma_cong_add(
            c[0],
            c[0],
            x * poly_eval(c.drop_first(), x),
            y * poly_eval(c.drop_first(), y),
            p,
        );
    }
}

/// The value modulo the order of the field only depends on the residues of the coefficients; zeros
/// at the end do not matter.
pub proof fn lemma_eval_coefficients(a: Seq<int>, b: Seq<int>, x: int, p: int)
    requires
        p > 0,
        a.len() <= b.len(),
        forall|i: int| 0 <= i < a.len() ==> (#[trigger] a[i]) % p == b[i] % p,
        forall|i: int| a.len() <= i < b.len() ==> (#[trigger] b[i]) % p == 0,
    ensures
        poly_eval(a, x) % p == poly_eval(b, x) % p,
    decreases b.len(),
{
    if b.len() > 0 {
        let rest = b.drop_first();
        let (head, tail) = if a.len() > 0 {
            (a[0], a.drop_first())
        } else {
            (0, a)
        };
        assert forall|i: int| 0 <= i < tail.len() implies (#[trigger] tail[i]) % p == rest[i] % p by {
            assert(tail[i] == a[i + 1] && rest[i] == b[i + 1]);
        }
        assert forall|i: int| tail.len() <= i < rest.len() implies (#[trigger] rest[i]) % p == 0 by {
            assert(rest[i] == b[i + 1]);
        }
        lemma_eval_coefficients(tail, rest, x, p);
        lemma_small(0, p);
        assert(head % p == b[0] % p);
        lemma_cong_mul(x, x, poly_eval(tail, x), poly_eval(rest, x), p);
        lemma_cong_add(head, b[0], x * poly_eval(tail, x), x * poly_eval(rest, x), p);
        if a.len() == 0 {
            assert(poly_eval(tail, x) == 0);
            assert(x * 0 == 0);
        }
    }
}

/// The value of a sum of polynomials.
pub proof fn lemma_eval_sum(r: Seq<int>, a: Seq<int>, b: Seq<int>, x: int, p: int)
    requires
        p > 0,
        r.len() == if a.len() < b.len() {
            b.len()
        } else {
            a.len()
        },
        forall|i: int|
            0 <= i < r.len() ==> (#[trigger] r[i]) % p == ((if i < a.len() {
                a[i]
            } else {
                0
            }) + (if i < b.len() {
                b[i]
            } else {
                0
            })) % p,
    ensures
        poly_eval(r, x) % p == (poly_eval(a, x) + poly_eval(b, x)) % p,
    decreases r.len(),
{
    if r.len() > 0 {
        let (ha, ta) = if a.len() > 0 {
            (a[0], a.drop_first())
        } else {
            (0, a)
        };
        let (hb, tb) = if b.len() > 0 {
            (b[0], b.drop_first())
        } else {
            (0, b)
        };
        let tr = r.drop_first();
        assert forall|i: int| 0 <= i < tr.len() implies (#[trigger] tr[i]) % p == ((if i < ta.len() {
            ta[i]
        } else {
            0
        }) + (if i < tb.len() {
            tb[i]
        } else {
            0
        })) % p by {
            assert(tr[i] == r[i + 1]);
            if i < ta.len() {
                assert(ta[i] == a[i + 1]);
            }
            if i < tb.len() {
                assert(tb[i] == b[i + 1]);
            }
        }
        lemma_eval_sum(tr, ta, tb, x, p);
        let (er, ea, eb) = (poly_eval(tr, x), poly_eval(ta, x), poly_eval(tb, x));
        assert(r[0] % p == (ha + hb) % p);
        lemma_cong_mul(x, x, er, ea + eb, p);
        lemma_cong_add(r[0], ha + hb, x * er, x * (ea + eb), p);
        assert(x * (ea + eb) == x * ea + x * eb) by (nonlinear_arith);
        assert(x * 0 == 0);
    }
}

/// The value of a polynomial whose coefficients are multiplied with a constant.
pub proof fn lemma_eval_scale(r: Seq<int>, a: Seq<int>, k: int, x: int, p: int)
    requires
        p > 0,
        r.len() == a.len(),
        forall|i: int| 0 <= i < r.len() ==> (#[trigger] r[i]) % p == (a[i] * k) % p,
    ensures
        poly_eval(r, x) % p == (poly_eval(a, x) * k) % p,
    decreases r.len(),
{
    if r.len() > 0 {
        let tr = r.drop_first();
        let ta = a.drop_first();
        assert forall|i: int| 0 <= i < tr.len() implies (#[trigger] tr[i]) % p == (ta[i] * k) % p by {
            assert(tr[i] == r[i + 1] && ta[i] == a[i + 1]);
        }
        lemma_eval_scale(tr, ta, k, x, p);
        let (er, ea) = (poly_eval(tr, x), poly_eval(ta, x));
        assert(r[0] % p == (a[0] * k) % p);
        lemma_cong_mul(x, x, er, ea * k, p);
        lemma_cong_add(r[0], a[0] * k, x * er, x * (ea * k), p);
        assert(a[0] * k + x * (ea * k) == (a[0] + x * ea) * k) by (nonlinear_arith);
    } else {
        assert(0 * k == 0);
    }
}

/// The value of a polynomial on a shifted domain: if the coefficients are multiplied with `s`,
/// `s * q`, `s * q^2`, and so on, the value at `x` is `s` times that of the original at `q * x`.
proof fn lemma_eval_shift(r: Seq<int>, a: Seq<int>, s: int, q: int, x: int, p: int)
    requires
        p > 0,
        r.len() == a.len(),
        forall|i: int|
            0 <= i < r.len() ==> (#[trigger] r[i]) % p == (a[i] * (s * pow(q, i as nat))) % p,
    ensures
        poly_eval(r, x) % p == (s * poly_eval(a, q * x)) % p,
    decreases r.len(),
{
    if r.len() > 0 {
        let tr = r.drop_first();
        let ta = a.drop_first();
        assert forall|i: int| 0 <= i < tr.len() implies (#[trigger] tr[i]) % p == (ta[i] * ((s * q)
            * pow(q, i as nat))) % p by {
            assert(tr[i] == r[i + 1] && ta[i] == a[i + 1]);
            lemma_pow_adds(q, 1, i as nat);
            lemma_pow1(q);
            let z = pow(q, i as nat);
            assert(s * (q * z) == (s * q) * z) by (nonlinear_arith);
        }
        lemma_eval_shift(tr, ta, s * q, q, x, p);
        let (er, ea) = (poly_eval(tr, x), poly_eval(ta, q * x));
        lemma_pow0(q);
        assert(r[0] % p == (a[0] * (s * 1)) % p);
        lemma_cong_mul(x, x, er, (s * q) * ea, p);
        lemma_cong_add(r[0], a[0] * (s * 1), x * er, x * ((s * q) * ea), p);
        assert(a[0] * (s * 1) + x * ((s * q) * ea) == s * (a[0] + (q * x) * ea)) by (nonlinear_arith);
    } else {
        assert(s * 0 == 0);
    }
}

impl Polynomial {
    /// Makes a polynomial with the given coefficients.
    pub fn with_coefficients(coefficients: Vec<Scalar>) -> (ret: Self)
        ensures
            ret@ == residues(coefficients@),
            ret.coefficients == coefficients,
    {
        Polynomial { coefficients }
    }

    /// Makes a constant polynomial.
    pub fn constant(y: Scalar) -> (ret: Self)
        ensures
            ret@ == seq![y.value()],
            forall|x: int| #[trigger] poly_eval(ret@, x) == y.value(),
    {
        let mut coefficients: Vec<Scalar> = Vec::new();
        coefficients.push(y);
        let ret = Polynomial { coefficients };
        proof {
            assert(ret@ =~= seq![y.value()]);
            assert forall|x: int| #[trigger] poly_eval(ret@, x) == y.value() by {
                assert(ret@.drop_first() =~= Seq::<int>::empty());
                assert(x * 0 == 0);
                reveal_with_fuel(poly_eval, 2);
            }
        }
        ret
    }

    /// Makes the zero polynomial.
    pub fn zero() -> (ret: Self)
        ensures
            ret@ == Seq::<int>::empty(),
            forall|x: int| #[trigger] poly_eval(ret@, x) == 0,
    {
        let ret = Polynomial { coefficients: Vec::new() };
        proof {
            assert(ret@ =~= Seq::<int>::empty());
        }
        ret
    }

    /// Copies the polynomial.
    pub fn copy(&self) -> (ret: Self)
        ensures
            ret@ == self@,
    {
        let mut coefficients: Vec<Scalar> = Vec::new();
        let mut i: usize = 0;
        while i < self.coefficients.len()
            invariant
                i <= self.coefficients.len(),
                coefficients@ == self.coefficients@.subrange(0, i as int),
            decreases self.coefficients.len() - i,
        {
            coefficients.push(self.coefficients[i]);
            proof {
                assert(self.coefficients@.subrange(0, i + 1) =~= self.coefficients@.subrange(
                    0,
                    i as int,
                ).push(self.coefficients@[i as int]));
            }
            i += 1;
        }
        proof {
            assert(self.coefficients@.subrange(0, self.coefficients@.len() as int)
                =~= self.coefficients@);
        }
        Polynomial { coefficients }
    }

    /// The coefficient of the given power.
    fn coefficient(&self, i: usize) -> (ret: Scalar)
        ensures
            ret.value() == if i < self@.len() {
                self@[i as int]
            } else {
                0
            },
    {
        if i < self.coefficients.len() {
            self.coefficients[i]
        } else {
            zero::<Scalar>()
        }
    }

    /// Adds two polynomials.
    pub fn plus(&self, rhs: &Self) -> (ret: Self)
        ensures
            ret@.len() == if self@.len() < rhs@.len() {
                rhs@.len()
            } else {
                self@.len()
            },
            forall|x: int| #[trigger]
                poly_eval(ret@, x) % Scalar::modulus() == (poly_eval(self@, x) + poly_eval(rhs@, x))
                    % Scalar::modulus(),
    {
        let ghost p = Scalar::modulus();
        let n: usize = if self.coefficients.len() < rhs.coefficients.len() {
            rhs.coefficients.len()
        } else {
            self.coefficients.len()
        };
        let mut coefficients: Vec<Scalar> = Vec::new();
        let mut i: usize = 0;
        while i < n
            invariant
                i <= n,
                p == Scalar::modulus(),
                coefficients@.len() == i,
                forall|k: int|
                    0 <= k < i ==> (#[trigger] coefficients@[k]).value() == ((if k < self@.len() {
                        self@[k]
                    } else {
                        0
                    }) + (if k < rhs@.len() {
                        rhs@[k]
                    } else {
                        0
                    })) % p,
            decreases n - i,
        {
            coefficients.push(self.coefficient(i).plus(rhs.coefficient(i)));
            i += 1;
        }
        let ret = Polynomial { coefficients };
        proof {
            Scalar::lemma_modulus();
            assert forall|x: int| #[trigger]
                poly_eval(ret@, x) % p == (poly_eval(self@, x) + poly_eval(rhs@, x)) % p by {
                assert forall|k: int| 0 <= k < ret@.len() implies (#[trigger] ret@[k]) % p == ((if k
                    < self@.len() {
                    self@[k]
                } else {
                    0
                }) + (if k < rhs@.len() {
                    rhs@[k]
                } else {
                    0
                })) % p by {
                    assert(ret@[k] == coefficients@[k].value());
                    coefficients@[k].lemma_value_bounds();
                    lemma_small(ret@[k], p);
                }
                lemma_eval_sum(ret@, self@, rhs@, x, p);
            }
        }
        ret
    }

    /// Multiplies a polynomial with a constant.
    pub fn scaled(&self, factor: Scalar) -> (ret: Self)
        ensures
            ret@.len() == self@.len(),
            forall|x: int| #[trigger]
                poly_eval(ret@, x) % Scalar::modulus() == (poly_eval(self@, x) * factor.value())
                    % Scalar::modulus(),
    {
        let ghost p = Scalar::modulus();
        let mut coefficients: Vec<Scalar> = Vec::new();
        let mut i: usize = 0;
        while i < self.coefficients.len()
            invariant
                i <= self.coefficients.len(),
                p == Scalar::modulus(),
                coefficients@.len() == i,
                forall|k: int|
                    0 <= k < i ==> (#[trigger] coefficients@[k]).value() == (self@[k]
                        * factor.value()) % p,
            decreases self.coefficients.len() - i,
        {
            coefficients.push(self.coefficients[i].times(factor));
            i += 1;
        }
        let ret = Polynomial { coefficients };
        proof {
            Scalar::lemma_modulus();
            assert forall|x: int| #[trigger]
                poly_eval(ret@, x) % p == (poly_eval(self@, x) * factor.value()) % p by {
                assert forall|k: int| 0 <= k < ret@.len() implies (#[trigger] ret@[k]) % p == (
                self@[k] * factor.value()) % p by {
                    assert(ret@[k] == coefficients@[k].value());
                    coefficients@[k].lemma_value_bounds();
                    lemma_small(ret@[k], p);
                }
                lemma_eval_scale(ret@, self@, factor.value(), x, p);
            }
        }
        ret
    }

    /// Subtracts a polynomial from another.
    pub fn minus(&self, rhs: &Self) -> (ret: Self)
        ensures
            ret@.len() == if self@.len() < rhs@.len() {
                rhs@.len()
            } else {
                self@.len()
            },
            forall|x: int| #[trigger]
                poly_eval(ret@, x) % Scalar::modulus() == (poly_eval(self@, x) - poly_eval(rhs@, x))
                    % Scalar::modulus(),
    {
        let minus_one = one::<Scalar>().negated();
        let opposite = rhs.scaled(minus_one);
        let ret = self.plus(&opposite);
        proof {
            let p = Scalar::modulus();
            Scalar::lemma_modulus();
            assert forall|x: int| #[trigger]
                poly_eval(ret@, x) % p == (poly_eval(self@, x) - poly_eval(rhs@, x)) % p by {
                let (a, b) = (poly_eval(self@, x), poly_eval(rhs@, x));
                lemma_mod_mul(b, -1, p);
                assert(b * -1 == -b);
                assert(poly_eval(opposite@, x) % p == (-b) % p);
                lemma_cong_add(a, a, poly_eval(opposite@, x), -b, p);
            }
        }
        ret
    }

    /// Converts this polynomial `P(X)` to `P(shift * X)`, effectively shifting the evaluation
    /// domain.
    pub fn shift_domain_by(&self, shift: Scalar) -> (ret: Self)
        ensures
            ret@.len() == self@.len(),
            forall|x: int| #[trigger]
                poly_eval(ret@, x) % Scalar::modulus() == poly_eval(self@, shift.value() * x)
                    % Scalar::modulus(),
    {
        let ghost p = Scalar::modulus();
        let ghost q = shift.value();
        let mut coefficients: Vec<Scalar> = Vec::new();
        let mut shift_pow = one::<Scalar>();
        let mut i: usize = 0;
        proof {
            Scalar::lemma_modulus();
            lemma_pow0(q);
            lemma_small(1, p);
        }
        while i < self.coefficients.len()
            invariant
                i <= self.coefficients.len(),
                p == Scalar::modulus(),
                p > 1,
                q == shift.value(),
                shift_pow.value() == pow(q, i as nat) % p,
                coefficients@.len() == i,
                forall|k: int|
                    0 <= k < i ==> (#[trigger] coefficients@[k]).value() == (self@[k] * pow(
                        q,
                        k as nat,
                    )) % p,
            decreases self.coefficients.len() - i,
        {
            proof {
                lemma_mod_mul(self@[i as int], pow(q, i as nat), p);
                lemma_pow_adds(q, i as nat, 1);
                lemma_pow1(q);
                lemma_mod_mul(pow(q, i as nat), q, p);
            }
            coefficients.push(self.coefficients[i].times(shift_pow));
            shift_pow = shift_pow.times(shift);
            i += 1;
        }
        let ret = Polynomial { coefficients };
        proof {
            assert forall|x: int| #[trigger]
                poly_eval(ret@, x) % p == poly_eval(self@, q * x) % p by {
                assert forall|k: int| 0 <= k < ret@.len() implies (#[trigger] ret@[k]) % p == (
                self@[k] * (1 * pow(q, k as nat))) % p by {
                    assert(ret@[k] == coefficients@[k].value());
                    coefficients@[k].lemma_value_bounds();
                    lemma_small(ret@[k], p);
                }
                lemma_eval_shift(ret@, self@, 1, q, x, p);
            }
        }
        ret
    }

    /// Multiplies two polynomials.
    pub fn times(&self, rhs: &Self) -> (ret: Self)
        requires
            self@.len() + rhs@.len() <= max_domain_size(),
        ensures
            ret@.len() <= self@.len() + rhs@.len(),
            self@.len() > 0 && rhs@.len() > 0 ==> ret@.len() < self@.len() + rhs@.len(),
            self@.len() == 0 || rhs@.len() == 0 ==> ret@.len() == 0,
            forall|x: int| #[trigger]
                poly_eval(ret@, x) % Scalar::modulus() == (poly_eval(self@, x) * poly_eval(rhs@, x))
                    % Scalar::modulus(),
    {
        Polynomial { coefficients: outside_multiply(&self.coefficients, &rhs.coefficients) }
    }

    /// Multiplies several polynomials.
    pub fn multiply_batch(polynomials: &Vec<&Polynomial>) -> (ret: Self)
        requires
            batch_size(poly_views(polynomials@)) <= max_domain_size(),
        ensures
            ret@.len() <= batch_size(poly_views(polynomials@)),
            forall|x: int| #[trigger]
                poly_eval(ret@, x) % Scalar::modulus() == batch_eval(poly_views(polynomials@), x)
                    % Scalar::modulus(),
    {
        outside_multiply_batch(polynomials)
    }

    /// Interpolates a polynomial that encodes an ordered list of values.
    ///
    /// The returned polynomial evaluates to the provided values at the elements of the evaluation
    /// domain.
    pub fn encode2(values: &Vec<Scalar>) -> (ret: Self)
        requires
            is_power_of_two(values@.len() as int),
            values@.len() <= max_domain_size(),
        ensures
            ret@.len() <= values@.len(),
            forall|i: nat|
                i < values@.len() ==> #[trigger] poly_eval(
                    ret@,
                    pow(domain_root(values@.len() as int), i),
                ) % Scalar::modulus() == values@[i as int].value(),
    {
        Polynomial { coefficients: outside_encode2(values) }
    }

    /// Returns the Lagrange basis polynomial that is 1 at the first element of the evaluation domain
    /// of size `n`, and 0 at the others.
    pub fn lagrange0_2(n: usize) -> (ret: Self)
        requires
            is_power_of_two(n as int),
            n <= max_domain_size(),
        ensures
            is_lagrange0(ret@, n as int),
    {
        Polynomial { coefficients: outside_lagrange0_2(n) }
    }

    /// Divides the polynomial by `X^n - 1`, or returns `None` if there is a remainder.
    pub fn divide_by_zero(&self, n: usize) -> (ret: Option<Self>)
        requires
            is_power_of_two(n as int),
            n <= max_domain_size(),
        ensures
            ret is Some <==> vanishes(self@, n as int),
            ret matches Some(quotient) ==> {
                &&& quotient@.len() <= if self@.len() < n {
                    0
                } else {
                    self@.len() - n
                }
                &&& forall|x: int|
                    (#[trigger] poly_eval(quotient@, x) * (pow(x, n as nat) - 1)) % Scalar::modulus()
                        == poly_eval(self@, x) % Scalar::modulus()
            },
    {
        match outside_divide_by_zero(&self.coefficients, n) {
            Some(coefficients) => Some(Polynomial { coefficients }),
            None => None,
        }
    }
}

/// `domain_element2` of [`starkom_poly::Polynomial`] with index 1: the root of unity that generates
/// the evaluation domain of size `n`. Its `n`-th power is 1.
#[verifier::external_body]
fn outside_domain_element2(n: usize) -> (ret: Scalar)
    requires
        is_power_of_two(n as int),
        n <= max_domain_size(),
    ensures
        ret.value() == domain_root(n as int) && pow(ret.value(), n as nat) % Scalar::modulus() == 1,
{
    let root = starkom_poly::Polynomial::<starkom_bluesky::Scalar>::domain_element2(1, n);
    Scalar { limbs: root.to_u256().0 }
}

/// Returns the root of unity that generates the evaluation domain of size `n`.
pub fn domain_element(n: usize) -> (ret: Scalar)
    requires
        is_power_of_two(n as int),
        n <= max_domain_size(),
    ensures
        ret.value() == domain_root(n as int),
        pow(ret.value(), n as nat) % Scalar::modulus() == 1,
{
    outside_domain_element2(n)
}

/// `multiply` of [`starkom_poly::Polynomial`]: the product of the polynomials, without leading
/// zeros. The product is stated by its values.
#[verifier::external_body]
fn outside_multiply(a: &Vec<Scalar>, b: &Vec<Scalar>) -> (ret: Vec<Scalar>)
    requires
        a@.len() + b@.len() <= max_domain_size(),
    ensures
        ret@.len() <= a@.len() + b@.len(),
        a@.len() > 0 && b@.len() > 0 ==> ret@.len() < a@.len() + b@.len(),
        a@.len() == 0 || b@.len() == 0 ==> ret@.len() == 0,
        forall|x: int| #[trigger]
            poly_eval(residues(ret@), x) % Scalar::modulus() == (poly_eval(residues(a@), x)
                * poly_eval(residues(b@), x)) % Scalar::modulus(),
{
    let lift = |s: &Scalar| {
        starkom_bluesky::Scalar::try_from(primitive_types::U256(s.limbs)).unwrap()
    };
    let a = starkom_poly::Polynomial::with_coefficients(a.iter().map(lift).collect());
    let b = starkom_poly::Polynomial::with_coefficients(b.iter().map(lift).collect());
    a.multiply(b).take().iter().map(|c| Scalar { limbs: c.to_u256().0 }).collect()
}

/// `multiply_batch` of [`starkom_poly::Polynomial`]: the product of the polynomials, without leading
/// zeros. The product is stated by its values.
#[verifier::external_body]
fn outside_multiply_batch(polynomials: &Vec<&Polynomial>) -> (ret: Polynomial)
    requires
        batch_size(poly_views(polynomials@)) <= max_domain_size(),
    ensures
        ret@.len() <= batch_size(poly_views(polynomials@)),
        forall|x: int| #[trigger]
            poly_eval(ret@, x) % Scalar::modulus() == batch_eval(poly_views(polynomials@), x)
                % Scalar::modulus(),
{
    let lift = |s: &Scalar| {
        starkom_bluesky::Scalar::try_from(primitive_types::U256(s.limbs)).unwrap()
    };
    let batch: Vec<starkom_poly::Polynomial<starkom_bluesky::Scalar>> = polynomials.iter().map(|p| {
        starkom_poly::Polynomial::with_coefficients(p.coefficients.iter().map(lift).collect())
    }).collect();
    let product = starkom_poly::Polynomial::multiply_batch(batch.iter()).take();
    Polynomial {
        coefficients: product.iter().map(|c| Scalar { limbs: c.to_u256().0 }).collect(),
    }
}

/// `encode2` of [`starkom_poly::Polynomial`]: a polynomial with no more coefficients than there are
/// values, which takes the given values on the evaluation domain.
#[verifier::external_body]
fn outside_encode2(values: &Vec<Scalar>) -> (ret: Vec<Scalar>)
    requires
        is_power_of_two(values@.len() as int),
        values@.len() <= max_domain_size(),
    ensures
        ret@.len() <= values@.len(),
        forall|i: nat|
            i < values@.len() ==> #[trigger] poly_eval(
                residues(ret@),
                pow(domain_root(values@.len() as int), i),
            ) % Scalar::modulus() == values@[i as int].value(),
{
    let values: Vec<starkom_bluesky::Scalar> = values.iter().map(|s| {
        starkom_bluesky::Scalar::try_from(primitive_types::U256(s.limbs)).unwrap()
    }).collect();
    let polynomial = starkom_poly::Polynomial::encode2(values);
    polynomial.take().iter().map(|c| Scalar { limbs: c.to_u256().0 }).collect()
}

/// `divide_by_zero` of [`starkom_poly::Polynomial`]: the quotient of the division by `X^n - 1`. It
/// is refused if there is a remainder. There is none exactly when the polynomial vanishes on the
/// evaluation domain of size `n`, whose elements are the `n` different roots of `X^n - 1`.
#[verifier::external_body]
fn outside_divide_by_zero(coefficients: &Vec<Scalar>, n: usize) -> (ret: Option<Vec<Scalar>>)
    requires
        is_power_of_two(n as int),
        n <= max_domain_size(),
    ensures
        ret is Some <==> vanishes(residues(coefficients@), n as int),
        ret matches Some(quotient) ==> quotient@.len() <= if coefficients@.len() < n {
            0
        } else {
            coefficients@.len() - n
        },
        ret matches Some(quotient) ==> forall|x: int|
            (#[trigger] poly_eval(residues(quotient@), x) * (pow(x, n as nat) - 1))
                % Scalar::modulus()
                == poly_eval(residues(coefficients@), x) % Scalar::modulus(),
{
    let coefficients: Vec<starkom_bluesky::Scalar> = coefficients.iter().map(|s| {
        starkom_bluesky::Scalar::try_from(primitive_types::U256(s.limbs)).unwrap()
    }).collect();
    let polynomial = starkom_poly::Polynomial::with_coefficients(coefficients);
    let quotient = polynomial.divide_by_zero(n).ok()?.take();
    Some(quotient.iter().map(|c| Scalar { limbs: c.to_u256().0 }).collect())
}

/// `lagrange0_2` of [`starkom_poly::Polynomial`]: the quotient of `X^n - 1` and `n * (X - 1)`, which
/// is 1 at the first element of the evaluation domain of size `n` and 0 at the others.
#[verifier::external_body]
fn outside_lagrange0_2(n: usize) -> (ret: Vec<Scalar>)
    requires
        is_power_of_two(n as int),
        n <= max_domain_size(),
    ensures
        is_lagrange0(residues(ret@), n as int),
{
    let polynomial = starkom_poly::Polynomial::<starkom_bluesky::Scalar>::lagrange0_2(n);
    polynomial.coefficients().iter().map(|c| Scalar { limbs: c.to_u256().0 }).collect()
}

impl Clone for Polynomial {
    fn clone(&self) -> (ret: Self)
        ensures
            ret@ == self@,
    {
        self.copy()
    }
}

} // verus!
