//! Prime numbers, and how to recognise them.
use crate::arith::{
    invertible, is_inverse, lemma_cong_mul, lemma_cong_pow, lemma_cong_sub, lemma_mod_mul,
    lemma_small,
};
use vstd::arithmetic::div_mod::{lemma_fundamental_div_mod, lemma_mod_twice};
use vstd::arithmetic::power::{lemma1_pow, lemma_pow0, lemma_pow_adds, lemma_pow_multiplies, pow};
use vstd::prelude::*;
use vstd::set_lib::{lemma_int_range, lemma_len_subset, set_int_range};

verus! {

/// `p` has no divisors but 1 and itself.
pub open spec fn is_prime(p: int) -> bool {
    &&& p > 1
    &&& forall|d: int| 1 < d < p ==> #[trigger] (p % d) != 0
}

/// Every residue but 0 has an inverse.
pub open spec fn has_inverses(p: int) -> bool {
    forall|x: int| 0 < x < p ==> #[trigger] invertible(x, p)
}

/// A product of residues is zero only if one of them is.
pub proof fn lemma_zero_product(a: int, b: int, p: int)
    requires
        p > 1,
        has_inverses(p),
        (a * b) % p == 0,
    ensures
        a % p == 0 || b % p == 0,
{
    let x = a % p;
    if x != 0 {
        assert(invertible(x, p));
        let r = choose|r: int| is_inverse(x, r, p);
        assert(is_inverse(x, r, p));
        lemma_small(0, p);
        lemma_small(1, p);
        lemma_mod_twice(a, p);
        // b == (x * r) * b == (a * b) * r == 0
        lemma_cong_mul(x * r, 1, b, b, p);
        assert(1 * b == b);
        assert((x * r) * b == (x * b) * r) by (nonlinear_arith);
        lemma_cong_mul(x, a, b, b, p);
        lemma_cong_mul(x * b, 0, r, r, p);
        assert(0 * r == 0);
    }
}

/// A residue that is not zero has an inverse modulo a prime.
proof fn lemma_prime_invertible(x: int, p: int)
    requires
        is_prime(p),
        0 < x < p,
    ensures
        invertible(x, p),
    decreases x,
{
    lemma_small(1, p);
    if x == 1 {
        assert(is_inverse(1, 1, p));
    } else {
        let (q, r) = (p / x, p % x);
        lemma_fundamental_div_mod(p, x);
        assert(0 < r < x);
        lemma_prime_invertible(r, p);
        let s = choose|s: int| is_inverse(r, s, p);
        assert(is_inverse(r, s, p));
        // x * q == p - r, so x * (-q * s) == r * s == 1
        let y = -q * s;
        assert(x * y == r * s - p * s) by (nonlinear_arith)
            requires
                p == x * q + r,
                y == -q * s,
        ;
        vstd::arithmetic::div_mod::lemma_mod_multiples_vanish(-s, r * s, p);
        assert(p * (-s) + r * s == r * s - p * s) by (nonlinear_arith);
        lemma_mod_mul(x, y, p);
        assert(is_inverse(x, y % p, p));
    }
}

/// Residues but 0 have inverses modulo a prime.
pub proof fn lemma_prime_inverses(p: int)
    requires
        is_prime(p),
    ensures
        has_inverses(p),
{
    assert forall|x: int| 0 < x < p implies #[trigger] invertible(x, p) by {
        lemma_prime_invertible(x, p);
    }
}

/// A number is prime if its square root is smaller than all of its divisors but 1.
pub proof fn lemma_no_small_divisor(n: int)
    requires
        n > 1,
        forall|r: int| 1 < r && r * r <= n ==> #[trigger] (n % r) != 0,
    ensures
        is_prime(n),
{
    assert forall|d: int| 1 < d < n implies #[trigger] (n % d) != 0 by {
        if n % d == 0 {
            let e = n / d;
            lemma_fundamental_div_mod(n, d);
            assert(n == d * e);
            assert(e > 1) by (nonlinear_arith)
                requires
                    n == d * e,
                    1 < d < n,
            ;
            if d > e {
                assert(e * e <= n) by (nonlinear_arith)
                    requires
                        n == d * e,
                        1 < e < d,
                ;
                vstd::arithmetic::div_mod::lemma_mod_multiples_basic(d, e);
                assert(n % e != 0);
            } else {
                assert(d * d <= n) by (nonlinear_arith)
                    requires
                        n == d * e,
                        1 < d <= e,
                ;
            }
        }
    }
}

/// A prime that divides a product divides a factor.
proof fn lemma_prime_divides(q: int, d: int, e: int)
    requires
        is_prime(q),
        (d * e) % q == 0,
        e % q != 0,
    ensures
        d % q == 0,
{
    lemma_prime_inverses(q);
    lemma_zero_product(d, e, q);
}

/// A factor that a prime does not divide can do without the prime's powers.
pub proof fn lemma_strip_power(q: int, n: nat, k: int, d: int, e: int) -> (r: int)
    requires
        is_prime(q),
        pow(q, n) * k == d * e,
        e % q != 0,
    ensures
        k == r * e,
    decreases n,
{
    if n == 0 {
        lemma_pow0(q);
        assert(1 * k == k);
        d
    } else {
        let m = (n - 1) as nat;
        lemma_pow_adds(q, 1, m);
        vstd::arithmetic::power::lemma_pow1(q);
        let rest = pow(q, m) * k;
        assert(pow(q, n) * k == q * rest) by (nonlinear_arith)
            requires
                pow(q, n) == q * pow(q, m),
                rest == pow(q, m) * k,
        ;
        vstd::arithmetic::div_mod::lemma_mod_multiples_basic(rest, q);
        assert(rest * q == q * rest) by (nonlinear_arith);
        lemma_prime_divides(q, d, e);
        let c = d / q;
        lemma_fundamental_div_mod(d, q);
        assert(rest == c * e) by (nonlinear_arith)
            requires
                d == q * c,
                q * rest == d * e,
                q > 1,
        ;
        lemma_strip_power(q, m, k, c, e)
    }
}

/// Numbers that are congruent modulo `n` are congruent modulo a divisor of `n`.
proof fn lemma_cong_divisor(a: int, b: int, n: int, r: int)
    requires
        n > 0,
        r > 0,
        n % r == 0,
        a % n == b % n,
    ensures
        a % r == b % r,
{
    lemma_fundamental_div_mod(a, n);
    lemma_fundamental_div_mod(b, n);
    lemma_fundamental_div_mod(n, r);
    let (x, y, k) = (a / n, b / n, n / r);
    assert(a == r * (k * (x - y)) + b) by (nonlinear_arith)
        requires
            a == n * x + a % n,
            b == n * y + b % n,
            a % n == b % n,
            n == r * k,
    ;
    vstd::arithmetic::div_mod::lemma_mod_multiples_vanish(k * (x - y), b, r);
}

/// `b` to the power `g` differs from 1 by an invertible number.
pub open spec fn leaves_one(b: int, g: nat, n: int) -> bool {
    invertible(pow(b, g) - 1, n)
}

/// Some power of `b` whose exponent is a multiple of `d` differs from 1 by an invertible number.
pub open spec fn escapes(b: int, d: nat, n: int) -> bool {
    exists|g: nat| #[trigger] leaves_one(b, g, n) && g % d == 0
}

/// `b` is 1 to the power `f`, and not to the power of a proper divisor of `f`, modulo every divisor of
/// `n` but 1.
pub open spec fn has_exact_order(b: int, f: nat, n: int) -> bool {
    &&& pow(b, f) % n == 1
    &&& forall|d: nat| 0 < d < f && f % d == 0 ==> #[trigger] escapes(b, d, n)
}

/// If a power of `b` is 1, so are the powers whose exponents are multiples.
proof fn lemma_power_of_one(b: int, d: nat, k: nat, r: int)
    requires
        r > 1,
        pow(b, d) % r == 1,
    ensures
        pow(b, d * k) % r == 1,
{
    lemma_small(1, r);
    lemma_pow_multiplies(b, d, k);
    lemma_cong_pow(pow(b, d), 1, k, r);
    lemma1_pow(k);
}

/// No smaller power is 1 modulo a divisor of `n`.
pub proof fn lemma_no_smaller_power(b: int, f: nat, n: int, r: int, k: nat)
    requires
        n > 1,
        has_exact_order(b, f, n),
        r > 1,
        n % r == 0,
        0 < k < f,
    ensures
        pow(b, k) % r != 1,
    decreases k,
{
    lemma_small(1, r);
    lemma_small(1, n);
    lemma_small(0, r);
    if pow(b, k) % r == 1 {
        let (q, t) = (f / k, f % k);
        lemma_fundamental_div_mod(f as int, k as int);
        if t == 0 {
            assert(escapes(b, k, n));
            let g = choose|g: nat| #[trigger] leaves_one(b, g, n) && g % k == 0;
            let x = pow(b, g) - 1;
            let u = choose|u: int| is_inverse(x, u, n);
            assert(is_inverse(x, u, n));
            lemma_fundamental_div_mod(g as int, k as int);
            lemma_power_of_one(b, k, g / k, r);
            assert(pow(b, g) % r == 1);
            lemma_cong_sub(pow(b, g), 1, 1, 1, r);
            lemma_cong_mul(x, 0, u, u, r);
            assert(0 * u == 0);
            lemma_cong_divisor(x * u, 1, n, r);
        } else {
            lemma_power_of_one(b, k, q, r);
            lemma_pow_adds(b, k * q, t);
            lemma_cong_mul(pow(b, k * q), 1, pow(b, t), pow(b, t), r);
            assert(1 * pow(b, t) == pow(b, t));
            lemma_cong_divisor(pow(b, f), 1, n, r);
            assert(pow(b, f) == pow(b, k * q) * pow(b, t));
            lemma_no_smaller_power(b, f, n, r, t);
        }
    }
}

/// The powers of `b` are different modulo a divisor of `n`.
pub proof fn lemma_powers_differ(b: int, f: nat, n: int, r: int, i: nat, j: nat)
    requires
        n > 1,
        has_exact_order(b, f, n),
        r > 1,
        n % r == 0,
        i < j < f,
    ensures
        pow(b, i) % r != pow(b, j) % r,
{
    lemma_small(1, r);
    lemma_small(1, n);
    if pow(b, i) % r == pow(b, j) % r {
        let k = (f - j) as nat;
        lemma_pow_adds(b, i, k);
        lemma_pow_adds(b, j, k);
        lemma_cong_mul(pow(b, i), pow(b, j), pow(b, k), pow(b, k), r);
        lemma_cong_divisor(pow(b, f), 1, n, r);
        lemma_no_smaller_power(b, f, n, r, i + k);
    }
}

/// The powers of `b` are not zero modulo a divisor of `n`.
pub proof fn lemma_powers_nonzero(b: int, f: nat, n: int, r: int, i: nat)
    requires
        n > 1,
        has_exact_order(b, f, n),
        r > 1,
        n % r == 0,
        i <= f,
    ensures
        pow(b, i) % r != 0,
{
    lemma_small(1, r);
    lemma_small(0, r);
    lemma_small(1, n);
    if pow(b, i) % r == 0 {
        let k = (f - i) as nat;
        lemma_pow_adds(b, i, k);
        lemma_cong_mul(pow(b, i), 0, pow(b, k), pow(b, k), r);
        assert(0 * pow(b, k) == 0);
        lemma_cong_divisor(pow(b, f), 1, n, r);
    }
}

/// There are at least as many residues other than zero as there are different powers of `b`.
proof fn lemma_order_bound(b: int, f: nat, n: int, r: int)
    requires
        n > 1,
        has_exact_order(b, f, n),
        r > 1,
        n % r == 0,
    ensures
        f < r,
{
    let powers = Seq::new(f, |i: int| pow(b, i as nat) % r);
    assert forall|i: int, j: int| 0 <= i < f && 0 <= j < f && i != j implies powers[i]
        != powers[j] by {
        if i < j {
            lemma_powers_differ(b, f, n, r, i as nat, j as nat);
        } else {
            lemma_powers_differ(b, f, n, r, j as nat, i as nat);
        }
    }
    powers.unique_seq_to_set();
    let range = set_int_range(1, r);
    lemma_int_range(1, r);
    assert forall|x: int| powers.to_set().contains(x) implies range.contains(x) by {
        assert(powers.contains(x));
        let i = choose|i: int| 0 <= i < powers.len() && powers[i] == x;
        lemma_powers_nonzero(b, f, n, r, i as nat);
    }
    lemma_len_subset(powers.to_set(), range);
}

/// A number is prime if some `b` has an exact order that is larger than the number's square root.
pub proof fn lemma_prime_by_order(b: int, f: nat, n: int)
    requires
        n > 1,
        has_exact_order(b, f, n),
        f * f > n,
    ensures
        is_prime(n),
{
    assert forall|r: int| 1 < r && r * r <= n implies #[trigger] (n % r) != 0 by {
        if n % r == 0 {
            lemma_order_bound(b, f, n, r);
            assert(f * f < r * r) by (nonlinear_arith)
                requires
                    0 <= f < r,
            ;
        }
    }
    lemma_no_small_divisor(n);
}

} // verus!
