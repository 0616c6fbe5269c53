//! Laws about the notations and encodings of numbers.
use crate::field::{
    decimal, digit_value, field_text, hex_char, hex_width, hexadecimal, numeral_value, scalar_text,
    Field,
};
use crate::roundtrip::lemma_decimal;
use crate::utils::{
    blinding_rows, byte_at, is_next_power_of_two, le_value, opened_rotations, signed_value,
};
use vstd::arithmetic::div_mod::{lemma_div_denominator, lemma_fundamental_div_mod};
use vstd::arithmetic::power2::{lemma2_to64, lemma_pow2_adds, lemma_pow2_pos, pow2};
use vstd::arithmetic::power::{lemma_pow0, lemma_pow1, lemma_pow_adds, lemma_pow_positive, pow};
use vstd::prelude::*;

verus! {

/// The decimal notation of a number consists of decimal digits, is worth the number, and has no
/// leading zero.
pub proof fn law_decimal(n: nat, i: int)
    ensures
        numeral_value(decimal(n), 10) == n,
        decimal(n).len() > 0,
        0 <= i < decimal(n).len() ==> '0' <= decimal(n)[i] <= '9',
        decimal(n).len() > 1 ==> decimal(n)[0] != '0',
{
    lemma_decimal(n);
}

/// The last digits of a number in hexadecimal notation are worth the remainder of the number; the
/// digits from ten on are lower-case letters.
pub proof fn law_hexadecimal(n: int, digits: nat, i: int)
    requires
        n >= 0,
    ensures
        hexadecimal(n, digits).len() == digits,
        numeral_value(hexadecimal(n, digits), 16) == n % pow(16, digits),
        0 <= i < digits ==> '0' <= hexadecimal(n, digits)[i] <= '9' || 'a' <= hexadecimal(
            n,
            digits,
        )[i] <= 'f',
    decreases digits,
{
    let s = hexadecimal(n, digits);
    lemma_pow0(16);
    if digits > 0 {
        let d = (digits - 1) as nat;
        law_hexadecimal(n / 16, d, i);
        assert(s.drop_last() =~= hexadecimal(n / 16, d));
        assert(s.last() == hex_char(n % 16));
        assert(digit_value(hex_char(n % 16)) == n % 16);
        lemma_pow_adds(16, 1, d);
        lemma_pow1(16);
        lemma_pow_positive(16, d);
        vstd::arithmetic::div_mod::lemma_mod_breakdown(n, 16, pow(16, d));
        if i < digits - 1 && 0 <= i {
            assert(s[i] == hexadecimal(n / 16, d)[i]);
        }
    } else {
        assert(n % 1 == 0);
    }
}

/// The text of a field element is its hexadecimal notation behind a prefix. It has two digits for
/// each byte that the order of the field takes up, and as many bytes as that needs.
pub proof fn law_field_text(n: int, p: int)
    requires
        0 <= n < p,
    ensures
        field_text(n, p).len() == 2 + hex_width(p),
        field_text(n, p)[0] == '0',
        field_text(n, p)[1] == 'x',
        numeral_value(field_text(n, p).subrange(2, field_text(n, p).len() as int), 16) == n,
        scalar_text(n).len() == 66,
        scalar_text(n)[0] == '0',
        scalar_text(n)[1] == 'x',
        n < pow(16, 64) ==> numeral_value(scalar_text(n).subrange(2, 66), 16) == n,
        p < pow(16, hex_width(p)),
        hex_width(p) >= 2,
        pow(16, (hex_width(p) - 2) as nat) <= p,
{
    let w = hex_width(p);
    lemma_hex_width(p);
    law_hexadecimal(n, w, 0);
    law_hexadecimal(n, 64, 0);
    assert(field_text(n, p).subrange(2, (2 + w) as int) =~= hexadecimal(n, w));
    assert(scalar_text(n).subrange(2, 66) =~= hexadecimal(n, 64));
    crate::arith::lemma_small(n, pow(16, w));
    if n < pow(16, 64) {
        crate::arith::lemma_small(n, pow(16, 64));
    }
}

/// The number of digits of a number.
proof fn lemma_hex_width(n: int)
    ensures
        n < pow(16, hex_width(n)),
        n > 0 ==> hex_width(n) >= 2 && pow(16, (hex_width(n) - 2) as nat) <= n,
    decreases n,
{
    lemma_pow0(16);
    if n > 0 {
        let m = n / 256;
        lemma_hex_width(m);
        let w = hex_width(m);
        assert(hex_width(n) == w + 2);
        lemma_pow_adds(16, w, 2);
        lemma_pow_adds(16, 1, 1);
        lemma_pow1(16);
        assert(pow(16, 2) == 256);
        assert(n < pow(16, w) * 256) by {
            assert(m + 1 <= pow(16, w));
        }
        if m > 0 {
            let k = (w - 2) as nat;
            lemma_pow_adds(16, k, 2);
            assert(pow(16, k) * 256 <= n);
        } else {
            assert(w == 0);
        }
    }
}

/// The integer that a residue stands for is congruent to it, and no integer that is congruent to it is
/// closer to zero.
pub proof fn law_signed_value(value: int, p: int, other: int)
    requires
        p > 1,
        0 <= value < p,
        other % p == value,
    ensures
        signed_value(value, p) % p == value,
        -p <= 2 * signed_value(value, p) <= p,
        if signed_value(value, p) < 0 {
            -signed_value(value, p)
        } else {
            signed_value(value, p)
        } <= if other < 0 {
            -other
        } else {
            other
        },
{
    let s = signed_value(value, p);
    if s < 0 {
        assert((value - p) % p == value % p) by {
            vstd::arithmetic::div_mod::lemma_mod_multiples_vanish(-1, value, p);
            assert(p * -1 + value == value - p);
        }
    }
    crate::arith::lemma_small(value, p);
    lemma_fundamental_div_mod(other, p);
    let q = other / p;
    assert(other == p * q + value);
    if q >= 1 {
        assert(p * q >= p) by (nonlinear_arith)
            requires
                q >= 1,
                p > 1,
        ;
    } else if q <= -1 {
        assert(p * q <= -p) by (nonlinear_arith)
            requires
                q <= -1,
                p > 1,
        ;
    } else {
        assert(p * 0 == 0);
    }
}

/// The bytes of a number, from the least significant one on, are its remainders when it is divided by
/// 256 again and again.
pub proof fn law_bytes(value: int, position: nat)
    requires
        value >= 0,
    ensures
        byte_at(value, 0) == value % 256,
        byte_at(value, position + 1) == byte_at(value / 256, position),
{
    lemma2_to64();
    assert(value / 1 == value);
    lemma_pow2_pos(8 * position);
    lemma_pow2_adds(8, 8 * position);
    assert(8 * (position + 1) == 8 + 8 * position);
    lemma_div_denominator(value, 256, pow2(8 * position) as int);
}

/// Different numbers of up to `n` bytes differ in one of these bytes.
pub proof fn law_bytes_identify(a: int, b: int, n: nat)
    requires
        0 <= a < pow(256, n),
        0 <= b < pow(256, n),
        forall|i: nat| i < n ==> #[trigger] byte_at(a, i) == byte_at(b, i),
    ensures
        a == b,
    decreases n,
{
    lemma_pow0(256);
    if n > 0 {
        let k = (n - 1) as nat;
        law_bytes(a, 0);
        law_bytes(b, 0);
        assert(byte_at(a, 0) == byte_at(b, 0));
        lemma_pow_adds(256, k, 1);
        lemma_pow1(256);
        assert(0 <= a / 256 < pow(256, k) && 0 <= b / 256 < pow(256, k));
        assert forall|i: nat| i < k implies #[trigger] byte_at(a / 256, i) == byte_at(b / 256, i) by {
            law_bytes(a, i);
            law_bytes(b, i);
            assert(byte_at(a, i + 1) == byte_at(b, i + 1));
        }
        law_bytes_identify(a / 256, b / 256, k);
        lemma_fundamental_div_mod(a, 256);
        lemma_fundamental_div_mod(b, 256);
    }
}

/// A sequence of bytes, least significant first, is worth the value of its front part plus the value
/// of its back part, shifted.
pub proof fn law_byte_sequences(a: Seq<u8>, b: Seq<u8>, x: u8)
    ensures
        le_value(seq![x]) == x,
        le_value(a + b) == le_value(a) + pow(256, a.len()) * le_value(b),
        0 <= le_value(a) < pow(256, a.len()),
    decreases a.len(),
{
    assert(seq![x].drop_first() =~= Seq::<u8>::empty());
    reveal_with_fuel(le_value, 2);
    lemma_pow0(256);
    if a.len() == 0 {
        assert(a + b =~= b);
    } else {
        let rest = a.drop_first();
        law_byte_sequences(rest, b, x);
        assert((a + b).drop_first() =~= rest + b);
        lemma_pow_adds(256, 1, rest.len());
        lemma_pow1(256);
        let (u, v, w) = (le_value(rest), pow(256, rest.len()), le_value(b));
        assert(256 * (u + v * w) == 256 * u + (256 * v) * w) by (nonlinear_arith);
    }
}

/// A circuit gets a block of blinding rows for each rotation that is opened, and one more; a block has
/// as many rows as it takes to hold 32 bytes, and no more. Rotations 0 and 1 are always opened.
pub proof fn law_blinding_rows<F: Field>(rotations: Seq<isize>, block: int, r: isize)
    requires
        F::spec_num_bytes() * (block - 1) < 32 <= F::spec_num_bytes() * block,
    ensures
        blinding_rows::<F>(rotations) == (opened_rotations(rotations).len() + 1) * block,
        opened_rotations(rotations).contains(r) <==> r == 0 || r == 1 || rotations.contains(r),
{
    F::lemma_modulus();
    let n = F::spec_num_bytes();
    let q = (31 + n) / n;
    lemma_fundamental_div_mod(31 + n, n);
    assert(q == block) by (nonlinear_arith)
        requires
            n >= 1,
            31 + n == n * q + (31 + n) % n,
            0 <= (31 + n) % n < n,
            n * (block - 1) < 32 <= n * block,
    ;
}

/// The next power of two of a number is a power of two, is not smaller than the number, and is not
/// larger than any other such one.
pub proof fn law_next_power_of_two(r: int, n: int, k: nat)
    requires
        is_next_power_of_two(r, n),
    ensures
        n <= r,
        exists|j: nat| r == #[trigger] pow2(j),
        n <= pow2(k) ==> r <= pow2(k),
{
}

} // verus!
