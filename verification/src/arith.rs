//! Integer arithmetic modulo a positive number.
use vstd::arithmetic::div_mod::{
    lemma_add_mod_noop, lemma_mod_twice, lemma_mul_mod_noop, lemma_small_mod, lemma_sub_mod_noop,
};
use vstd::arithmetic::power::{lemma_pow_mod_noop, pow};
use vstd::prelude::*;

verus! {

/// `r` is the multiplicative inverse of `a` modulo `p`, reduced.
pub open spec fn is_inverse(a: int, r: int, p: int) -> bool {
    0 <= r < p && (a * r) % p == 1
}

/// The multiplicative inverse of `a` modulo `p`, where there is one.
pub open spec fn inverse(a: int, p: int) -> int {
    choose|r: int| is_inverse(a, r, p)
}

/// `a` has a multiplicative inverse modulo `p`.
pub open spec fn invertible(a: int, p: int) -> bool {
    exists|r: int| is_inverse(a, r, p)
}

/// `a` raised to the possibly negative power `e`, modulo `p`.
pub open spec fn mod_pow(a: int, e: int, p: int) -> int {
    if e >= 0 {
        pow(a, e as nat) % p
    } else {
        pow(inverse(a, p), (-e) as nat) % p
    }
}

/// Sums modulo `p` only depend on the residues of the summands.
pub proof fn lemma_mod_add(a: int, b: int, p: int)
    requires
        p > 0,
    ensures
        (a % p + b % p) % p == (a + b) % p,
        (a % p + b) % p == (a + b) % p,
        (a + b % p) % p == (a + b) % p,
{
    lemma_add_mod_noop(a, b, p);
    lemma_add_mod_noop(a % p, b, p);
    lemma_add_mod_noop(a, b % p, p);
    lemma_mod_twice(a, p);
    lemma_mod_twice(b, p);
}

/// Differences modulo `p` only depend on the residues of their operands.
pub proof fn lemma_mod_sub(a: int, b: int, p: int)
    requires
        p > 0,
    ensures
        (a % p - b % p) % p == (a - b) % p,
        (a % p - b) % p == (a - b) % p,
        (a - b % p) % p == (a - b) % p,
{
    lemma_sub_mod_noop(a, b, p);
    lemma_sub_mod_noop(a % p, b, p);
    lemma_sub_mod_noop(a, b % p, p);
    lemma_mod_twice(a, p);
    lemma_mod_twice(b, p);
}

/// Products modulo `p` only depend on the residues of the factors.
pub proof fn lemma_mod_mul(a: int, b: int, p: int)
    requires
        p > 0,
    ensures
        ((a % p) * (b % p)) % p == (a * b) % p,
        ((a % p) * b) % p == (a * b) % p,
        (a * (b % p)) % p == (a * b) % p,
{
    lemma_mul_mod_noop(a, b, p);
    lemma_mul_mod_noop(a % p, b, p);
    lemma_mul_mod_noop(a, b % p, p);
    lemma_mod_twice(a, p);
    lemma_mod_twice(b, p);
}

/// A sum of congruent numbers.
pub proof fn lemma_cong_add(a: int, a2: int, b: int, b2: int, p: int)
    requires
        p > 0,
        a % p == a2 % p,
        b % p == b2 % p,
    ensures
        (a + b) % p == (a2 + b2) % p,
{
    lemma_mod_add(a, b, p);
    lemma_mod_add(a2, b2, p);
}

/// A difference of congruent numbers.
pub proof fn lemma_cong_sub(a: int, a2: int, b: int, b2: int, p: int)
    requires
        p > 0,
        a % p == a2 % p,
        b % p == b2 % p,
    ensures
        (a - b) % p == (a2 - b2) % p,
{
    lemma_mod_sub(a, b, p);
    lemma_mod_sub(a2, b2, p);
}

/// A product of congruent numbers.
pub proof fn lemma_cong_mul(a: int, a2: int, b: int, b2: int, p: int)
    requires
        p > 0,
        a % p == a2 % p,
        b % p == b2 % p,
    ensures
        (a * b) % p == (a2 * b2) % p,
{
    lemma_mod_mul(a, b, p);
    lemma_mod_mul(a2, b2, p);
}

/// A power of congruent numbers.
pub proof fn lemma_cong_pow(a: int, a2: int, e: nat, p: int)
    requires
        p > 0,
        a % p == a2 % p,
    ensures
        pow(a, e) % p == pow(a2, e) % p,
{
    lemma_pow_mod_noop(a, e, p);
    lemma_pow_mod_noop(a2, e, p);
}

/// Numbers below the modulus are their own residues.
pub proof fn lemma_small(a: int, p: int)
    requires
        0 <= a < p,
    ensures
        a % p == a,
{
    lemma_small_mod(a as nat, p as nat);
}

/// The inverse is unique.
pub proof fn lemma_inverse_unique(a: int, r: int, p: int)
    requires
        p > 1,
        is_inverse(a, r, p),
    ensures
        inverse(a, p) == r,
        invertible(a, p),
{
    let s = inverse(a, p);
    assert(is_inverse(a, s, p));
    // s == s * (a * r) == (s * a) * r == r, modulo p
    lemma_small(s, p);
    lemma_small(r, p);
    lemma_small(1, p);
    lemma_mod_mul(s, a * r, p);
    lemma_mod_mul(a * s, r, p);
    assert(s * (a * r) == (a * s) * r) by (nonlinear_arith);
    assert((s * 1) % p == (1 * r) % p);
}

} // verus!
