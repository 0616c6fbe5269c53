//! The positions of cells in the permutation argument.
use crate::arith::{lemma_cong_mul, lemma_cong_pow, lemma_cong_sub, lemma_small};
use crate::cell::Cell;
use crate::certificates::{
    bluesky_base, bluesky_cofactor, bluesky_order, lemma_bluesky_order, lemma_bluesky_prime,
};
use crate::field::bluesky_modulus;
use crate::model::{cell_identity, CircuitModel};
use crate::poly::{bluesky_root, domain_root, max_domain_size};
use crate::primes::{
    lemma_powers_differ, lemma_powers_nonzero, lemma_prime_inverses, lemma_zero_product,
};
use crate::utils::is_power_of_two;
use vstd::arithmetic::div_mod::lemma_mod_twice;
use vstd::arithmetic::power2::{lemma2_to64, lemma_pow2_adds, lemma_pow2_strictly_increases, pow2};
use vstd::arithmetic::power::{lemma1_pow, lemma_pow_distributes, lemma_pow_multiplies, pow};
use vstd::prelude::*;

verus! {

/// The exponent that turns the base into the root of unity.
spec fn root_exponent() -> nat {
    0x6cf749ca6539f0955nat
}

/// The number of evaluation domains of the given size that cover the largest one.
proof fn lemma_domain_ratio(size: int) -> (h: nat)
    requires
        is_power_of_two(size),
        size <= max_domain_size(),
    ensures
        size > 0,
        h == max_domain_size() / size,
        size * h == max_domain_size(),
{
    let k = choose|k: nat| size == #[trigger] pow2(k);
    lemma2_to64();
    assert(pow2(62) == max_domain_size()) by {
        lemma_pow2_adds(32, 30);
        assert(pow2(32) == 0x1_0000_0000);
        assert(pow2(30) == 0x4000_0000);
        assert(0x1_0000_0000int * 0x4000_0000int == 0x4000_0000_0000_0000int);
    }
    if k > 62 {
        lemma_pow2_strictly_increases(62, k);
    }
    let rest = (62 - k) as nat;
    lemma_pow2_adds(k, rest);
    vstd::arithmetic::power2::lemma_pow2_pos(k);
    let h = pow2(rest);
    vstd::arithmetic::div_mod::lemma_div_multiples_vanish(h as int, size);
    assert(h * size == size * h) by (nonlinear_arith);
    h
}

/// The root of an evaluation domain, and its powers, are powers of the base.
proof fn lemma_root_power(size: int, h: nat, i: nat)
    requires
        size > 0,
        h == max_domain_size() / size,
    ensures
        pow(domain_root(size), i) % bluesky_modulus() == pow(
            bluesky_base(),
            root_exponent() * h * i,
        ) % bluesky_modulus(),
{
    let p = bluesky_modulus();
    lemma_bluesky_order();
    let (k, r, b) = (root_exponent(), bluesky_root(), bluesky_base());
    lemma_pow_multiplies(5, bluesky_cofactor(), k);
    assert(pow(b, k) % p == r);
    lemma_small(r, p);
    lemma_cong_pow(pow(b, k), r, h, p);
    lemma_pow_multiplies(b, k, h);
    let w = domain_root(size);
    assert(w == pow(r, h) % p);
    lemma_mod_twice(pow(r, h), p);
    lemma_cong_pow(w, pow(b, k * h), i, p);
    lemma_pow_multiplies(b, k * h, i);
}

/// The exponents of the powers of a root are smaller than the order of the base.
proof fn lemma_exponent_bound(size: int, h: nat, i: nat, j: nat)
    requires
        size * h == max_domain_size(),
    ensures
        root_exponent() * h * size == bluesky_order(),
        i < j ==> root_exponent() * h * i < root_exponent() * h * j,
        i < size ==> root_exponent() * h * i < bluesky_order(),
{
    let k = root_exponent();
    let (m, f) = (max_domain_size(), bluesky_order());
    assert(k * m == f);
    assert(k * h > 0) by (nonlinear_arith)
        requires
            size * h == m,
            m > 0,
            h >= 0,
            k > 0,
    ;
    assert(k * h * size == k * (size * h)) by (nonlinear_arith);
    let kh = k * h;
    if i < j {
        assert(kh * i < kh * j) by (nonlinear_arith)
            requires
                kh > 0,
                i < j,
        ;
    }
    if i < size {
        assert(kh * i < kh * size) by (nonlinear_arith)
            requires
                kh > 0,
                i < size,
        ;
    }
}

/// A position, raised to the number of rows, only depends on the column.
proof fn lemma_position_power(size: int, h: nat, column: nat, row: nat)
    requires
        size > 0,
        h == max_domain_size() / size,
        size * h == max_domain_size(),
    ensures
        pow(pow(5, column) * pow(domain_root(size), row), size as nat) % bluesky_modulus() == pow(
            5,
            column * size as nat,
        ) % bluesky_modulus(),
{
    let p = bluesky_modulus();
    let n = size as nat;
    let (x, w) = (pow(5, column), domain_root(size));
    lemma_bluesky_order();
    lemma_pow_distributes(x, pow(w, row), n);
    lemma_pow_multiplies(5, column, n);
    // (w^row)^n == (w^n)^row == 1
    lemma_pow_multiplies(w, row, n);
    lemma_pow_multiplies(w, n, row);
    assert(row * n == n * row) by (nonlinear_arith);
    lemma_root_power(size, h, n);
    lemma_exponent_bound(size, h, 0, n);
    assert(pow(w, n) % p == 1);
    lemma_small(1, p);
    lemma_cong_pow(pow(w, n), 1, row, p);
    lemma1_pow(row);
    lemma_cong_mul(pow(x, n), pow(x, n), pow(pow(w, row), n), 1, p);
    assert(pow(x, n) * 1 == pow(x, n));
}

/// Cells in different columns have different positions.
proof fn lemma_columns_differ(size: int, h: nat, c: Cell, d: Cell)
    requires
        0 < size <= max_domain_size(),
        h == max_domain_size() / size,
        size * h == max_domain_size(),
        c.column < d.column,
    ensures
        cell_identity(c, size) != cell_identity(d, size),
{
    let (b, f, p) = (bluesky_base(), bluesky_order(), bluesky_modulus());
    lemma_bluesky_order();
    let n = size as nat;
    let w = domain_root(size);
    let x = pow(5, c.column as nat) * pow(w, c.row as nat);
    let y = pow(5, d.column as nat) * pow(w, d.row as nat);
    if x % p == y % p {
        lemma_cong_pow(x, y, n, p);
        lemma_position_power(size, h, c.column as nat, c.row as nat);
        lemma_position_power(size, h, d.column as nat, d.row as nat);
        let (i, j) = (c.column as nat * n, d.column as nat * n);
        let r = bluesky_cofactor();
        lemma_cong_pow(pow(5, i), pow(5, j), r, p);
        lemma_pow_multiplies(5, i, r);
        lemma_pow_multiplies(5, j, r);
        lemma_pow_multiplies(5, r, i);
        lemma_pow_multiplies(5, r, j);
        assert(i * r == r * i && j * r == r * j) by (nonlinear_arith);
        let (u, v) = (c.column as nat, d.column as nat);
        assert(u * n < v * n) by (nonlinear_arith)
            requires
                u < v,
                n > 0,
        ;
        assert(v * n <= 0x1_0000_0000_0000_0000 * 0x4000_0000_0000_0000) by (nonlinear_arith)
            requires
                0 <= v <= 0x1_0000_0000_0000_0000,
                0 < n <= 0x4000_0000_0000_0000,
        ;
        assert(p % p == 0);
        lemma_powers_differ(b, f, p, p, i, j);
    }
}

/// Cells in different rows of a column have different positions.
proof fn lemma_rows_differ(size: int, h: nat, c: Cell, d: Cell)
    requires
        0 < size <= max_domain_size(),
        h == max_domain_size() / size,
        size * h == max_domain_size(),
        c.column == d.column,
        c.row < d.row < size,
    ensures
        cell_identity(c, size) != cell_identity(d, size),
{
    let (b, f, p) = (bluesky_base(), bluesky_order(), bluesky_modulus());
    lemma_bluesky_order();
    lemma_bluesky_prime();
    lemma_prime_inverses(p);
    lemma_small(0, p);
    assert(p % p == 0);
    let w = domain_root(size);
    let column = c.column as nat;
    let z = pow(5, column);
    let (s, t) = (pow(w, c.row as nat), pow(w, d.row as nat));
    if (z * s) % p == (z * t) % p {
        lemma_cong_sub(z * s, z * t, z * t, z * t, p);
        assert(z * s - z * t == z * (s - t)) by (nonlinear_arith);
        lemma_zero_product(z, s - t, p);
        if z % p == 0 {
            let r = bluesky_cofactor();
            lemma_cong_pow(z, 0, r, p);
            vstd::arithmetic::power::lemma0_pow(r);
            lemma_pow_multiplies(5, column, r);
            lemma_pow_multiplies(5, r, column);
            assert(column * r == r * column) by (nonlinear_arith);
            lemma_powers_nonzero(b, f, p, p, column);
        }
        crate::arith::lemma_cong_add(s - t, 0, t, t, p);
        lemma_root_power(size, h, c.row as nat);
        lemma_root_power(size, h, d.row as nat);
        lemma_exponent_bound(size, h, c.row as nat, d.row as nat);
        lemma_exponent_bound(size, h, d.row as nat, d.row as nat);
        let kh = root_exponent() * h;
        lemma_powers_differ(b, f, p, p, kh * c.row as nat, kh * d.row as nat);
    }
}

/// Different cells of a circuit have different positions in the permutation argument.
pub proof fn law_positions_differ(m: CircuitModel, c: Cell, d: Cell)
    requires
        m.sizes_wf(),
        m.has(c),
        m.has(d),
        c != d,
    ensures
        cell_identity(c, m.size) != cell_identity(d, m.size),
{
    let size = m.size;
    let h = lemma_domain_ratio(size);
    if c.column < d.column {
        lemma_columns_differ(size, h, c, d);
    } else if d.column < c.column {
        lemma_columns_differ(size, h, d, c);
    } else if c.row < d.row {
        lemma_rows_differ(size, h, c, d);
    } else {
        lemma_rows_differ(size, h, d, c);
    }
}

} // verus!
