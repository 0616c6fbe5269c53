//! Conversions and sizes.
use crate::arith::{lemma_mod_add, lemma_mod_mul, lemma_mod_sub, lemma_small};
use crate::cell::Cell;
use crate::field::{from_const, less, one, zero, Field, Scalar, decimal, field_text};
use crate::variable::magnitude;
use sha3::Digest;
use vstd::arithmetic::div_mod::lemma_div_denominator;
use vstd::arithmetic::power2::{
    lemma2_to64, lemma_pow2_adds, lemma_pow2_pos, lemma_pow2_unfold, pow2,
};
use vstd::prelude::*;

verus! {

/// The digest that SHA3-256 assigns to a message.
pub uninterp spec fn sha3_256(message: Seq<u8>) -> Seq<u8>;

/// The signed integer closest to zero that is congruent to the residue `value` modulo `p`; of two
/// such integers, the positive one.
pub open spec fn signed_value(value: int, p: int) -> int {
    if value > (p - 1) / 2 {
        value - p
    } else {
        value
    }
}

/// Helper function used to derive domain separator tags used in various contexts.
pub fn make_dst(s: &[u8]) -> (ret: [u8; 32])
    ensures
        ret@ == sha3_256(s@),
{
    outside_sha3_256(s)
}

/// The hash function [`sha3::Sha3_256`]: the digest depends on the message alone.
#[verifier::external_body]
fn outside_sha3_256(message: &[u8]) -> (ret: [u8; 32])
    ensures
        ret@ == sha3_256(message@),
{
    sha3::Sha3_256::digest(message).into()
}

/// The digest that SHA3-512 assigns to a message.
pub uninterp spec fn sha3_512(message: Seq<u8>) -> Seq<u8>;

/// The number whose little-endian representation is `bytes`.
pub open spec fn le_value(bytes: Seq<u8>) -> int
    decreases bytes.len(),
{
    if bytes.len() == 0 {
        0
    } else {
        bytes[0] + 256 * le_value(bytes.drop_first())
    }
}

/// The hash function [`sha3::Sha3_512`]: the digest depends on the message alone.
#[verifier::external_body]
fn outside_sha3_512(message: &[u8]) -> (ret: [u8; 64])
    ensures
        ret@ == sha3_512(message@),
{
    sha3::Sha3_512::digest(message).into()
}

/// Hashes an arbitrary text string into a uniformly distributed scalar.
///
/// Under the hood this function works by hashing the string with SHA3-512 and converting the
/// resulting 64 bytes, least significant first, to a scalar via modular reduction.
pub fn hash_to_scalar(message: &[u8]) -> (ret: Scalar)
    ensures
        ret.value() == le_value(sha3_512(message@)) % Scalar::modulus(),
{
    let ghost p = Scalar::modulus();
    let bytes = outside_sha3_512(message);
    let base = from_const(256);
    let mut ret: Scalar = zero();
    let mut i: usize = 64;
    proof {
        Scalar::lemma_modulus();
        lemma_small(0, p);
        assert(bytes@.subrange(64, 64) =~= seq![]);
    }
    while i > 0
        invariant
            i <= 64,
            p == Scalar::modulus(),
            p > 0,
            base.value() == 256,
            ret.value() == le_value(bytes@.subrange(i as int, 64)) % p,
        decreases i,
    {
        i -= 1;
        proof {
            let suffix = bytes@.subrange(i as int, 64);
            let x = le_value(bytes@.subrange(i + 1, 64));
            assert(suffix.drop_first() =~= bytes@.subrange(i + 1, 64));
            assert(suffix[0] == bytes@[i as int]);
            lemma_mod_mul(x, 256, p);
            lemma_mod_add(x * 256, bytes@[i as int] as int, p);
        }
        ret = ret.times(base).plus(from_const(bytes[i] as u64));
    }
    proof {
        assert(bytes@.subrange(0, 64) =~= bytes@);
    }
    ret
}

/// The byte of `value` at the given position, counted from the least significant.
pub open spec fn byte_at(value: int, position: nat) -> int {
    (value / pow2(8 * position) as int) % 256
}

/// Writes a number to the 8 bytes of `bytes` that start at `offset`, in big-endian order.
fn put_be_bytes(bytes: &mut [u8; 32], offset: usize, value: u64)
    requires
        offset <= 24,
    ensures
        forall|i: int|
            0 <= i < 32 && !(offset <= i < offset + 8) ==> (#[trigger] final(bytes)@[i]) == old(
                bytes,
            )@[i],
        forall|i: int|
            offset <= i < offset + 8 ==> (#[trigger] final(bytes)@[i]) == byte_at(
                value as int,
                (offset + 7 - i) as nat,
            ),
{
    let mut rest: u64 = value;
    let mut k: usize = 0;
    proof {
        lemma2_to64();
        assert(pow2((8 * k) as nat) == 1);
        assert(value as int / 1 == value);
    }
    while k < 8
        invariant
            k <= 8,
            offset <= 24,
            rest == value as int / pow2((8 * k) as nat) as int,
            forall|i: int|
                0 <= i < 32 && !(offset + 8 - k <= i < offset + 8) ==> (#[trigger] bytes@[i])
                    == old(bytes)@[i],
            forall|i: int|
                offset + 8 - k <= i < offset + 8 ==> (#[trigger] bytes@[i]) == byte_at(
                    value as int,
                    (offset + 7 - i) as nat,
                ),
        decreases 8 - k,
    {
        bytes[offset + 7 - k] = (rest % 256) as u8;
        proof {
            let a = pow2((8 * k) as nat) as int;
            lemma_pow2_pos((8 * k) as nat);
            lemma_pow2_adds((8 * k) as nat, 8);
            lemma2_to64();
            assert((8 * k) as nat + 8 == (8 * (k + 1)) as nat);
            lemma_div_denominator(value as int, a, 256);
        }
        rest = rest / 256;
        k += 1;
    }
}

/// Encodes a [`usize`] into 32 bytes for use in Fiat-Shamir transcripts.
pub fn encode_usize(value: usize) -> (ret: [u8; 32])
    ensures
        forall|i: int| 0 <= i < 24 ==> (#[trigger] ret@[i]) == 0,
        forall|i: int|
            24 <= i < 32 ==> (#[trigger] ret@[i]) == byte_at(value as int, (31 - i) as nat),
{
    let mut bytes: [u8; 32] = [0; 32];
    put_be_bytes(&mut bytes, 24, value as u64);
    bytes
}

/// Encodes a [`Cell`] into 32 bytes for use in Fiat-Shamir transcripts.
pub fn encode_cell(cell: Cell) -> (ret: [u8; 32])
    ensures
        forall|i: int| 0 <= i < 8 ==> (#[trigger] ret@[i]) == 0,
        forall|i: int|
            8 <= i < 16 ==> (#[trigger] ret@[i]) == byte_at(cell.row as int, (15 - i) as nat),
        forall|i: int| 16 <= i < 24 ==> (#[trigger] ret@[i]) == 0,
        forall|i: int|
            24 <= i < 32 ==> (#[trigger] ret@[i]) == byte_at(cell.column as int, (31 - i) as nat),
{
    let mut bytes: [u8; 32] = [0; 32];
    put_be_bytes(&mut bytes, 8, cell.row() as u64);
    put_be_bytes(&mut bytes, 24, cell.column() as u64);
    bytes
}

/// Converts an [`isize`] to a field element, wrapping negative values around.
pub fn isize_to_scalar<F: Field>(value: isize) -> (ret: F)
    ensures
        ret.value() == value as int % F::modulus(),
{
    let abs: usize = magnitude(value);
    let element = F::from_u64(abs as u64);
    if value < 0 {
        proof {
            F::lemma_modulus();
            lemma_mod_sub(0, abs as int, F::modulus());
        }
        element.negated()
    } else {
        element
    }
}

/// Indicates whether a scalar value looks like a "negative" value.
///
/// In some context (e.g. in constraint expression parsing when interpreting an exponent) we get
/// scalar values that we need to convert to signed [`isize`] values.
pub fn is_pseudo_negative<F: Field>(value: &F) -> (ret: bool)
    ensures
        ret == (value.value() > (F::modulus() - 1) / 2),
{
    let opposite = one::<F>().negated().minus(*value);
    proof {
        let p = F::modulus();
        let v = value.value();
        F::lemma_modulus();
        value.lemma_value_bounds();
        assert((-1int) % p == p - 1) by (nonlinear_arith)
            requires
                p > 1,
        ;
        lemma_small(p - 1 - v, p);
    }
    less(opposite, *value)
}

/// Why a field element is not an [`isize`].
#[derive(Debug, Clone, PartialEq, Eq)]
pub enum RangeError {
    /// The number is below [`isize::MIN`]. The text is the hexadecimal notation of the element.
    TooSmall { value: String },
    /// The number is above [`isize::MAX`]. The text is its decimal notation.
    TooLarge { value: String },
}

/// What is wrong with a number that is not an [`isize`].
pub ghost enum RangeFault {
    TooSmall(Seq<char>),
    TooLarge(Seq<char>),
}

impl View for RangeError {
    type V = RangeFault;

    open spec fn view(&self) -> RangeFault {
        match *self {
            RangeError::TooSmall { value } => RangeFault::TooSmall(value@),
            RangeError::TooLarge { value } => RangeFault::TooLarge(value@),
        }
    }
}

/// What is wrong with the residue `v` if it does not stand for an [`isize`].
pub open spec fn range_fault(v: int, p: int) -> RangeFault {
    if signed_value(v, p) < 0 {
        RangeFault::TooSmall(field_text(v, p))
    } else {
        RangeFault::TooLarge(decimal(v as nat))
    }
}

/// Converts a field element to [`isize`], using [`is_pseudo_negative`] to decide when a field
/// element is to be interpreted as a negative / wrapped-around value.
pub fn scalar_to_isize<F: Field>(value: F) -> (ret: Result<isize, RangeError>)
    ensures
        match ret {
            Ok(v) => v == signed_value(value.value(), F::modulus()),
            Err(error) => !(isize::MIN <= signed_value(value.value(), F::modulus()) <= isize::MAX)
                && error@ == range_fault(value.value(), F::modulus()),
        },
{
    let ghost p = F::modulus();
    proof {
        F::lemma_modulus();
        value.lemma_value_bounds();
    }
    if is_pseudo_negative(&value) {
        let abs = value.negated().to_limbs();
        proof {
            let v = value.value();
            assert((-v) % p == p - v) by (nonlinear_arith)
                requires
                    0 < v < p,
            ;
        }
        if abs[1] != 0 || abs[2] != 0 || abs[3] != 0 || abs[0] > (isize::MAX as u64) + 1 {
            Err(RangeError::TooSmall { value: value.to_hexadecimal() })
        } else if abs[0] == (isize::MAX as u64) + 1 {
            Ok(isize::MIN)
        } else {
            Ok(-(abs[0] as isize))
        }
    } else {
        let limbs = value.to_limbs();
        if limbs[1] != 0 || limbs[2] != 0 || limbs[3] != 0 || limbs[0] > isize::MAX as u64 {
            Err(RangeError::TooLarge { value: value.to_decimal() })
        } else {
            Ok(limbs[0] as isize)
        }
    }
}

/// `n` is a power of two.
pub open spec fn is_power_of_two(n: int) -> bool {
    exists|k: nat| n == #[trigger] pow2(k)
}

/// `r` is the smallest power of two that is not smaller than `n`.
pub open spec fn is_next_power_of_two(r: int, n: int) -> bool {
    &&& is_power_of_two(r)
    &&& r >= n
    &&& forall|k: nat| #[trigger] pow2(k) >= n ==> r <= pow2(k)
}

/// Rounds a number up to the next power of two.
pub fn next_power_of_two(n: usize) -> (ret: usize)
    requires
        n <= usize::MAX / 2 + 1,
    ensures
        is_next_power_of_two(ret as int, n as int),
{
    let mut ret: usize = 1;
    let ghost mut k: nat = 0;
    proof {
        lemma2_to64();
        assert forall|j: nat| #[trigger] pow2(j) >= n implies ret <= pow2(j) by {
            lemma_pow2_pos(j);
        }
    }
    while ret < n
        invariant
            n <= usize::MAX / 2 + 1,
            ret == pow2(k),
            forall|j: nat| #[trigger] pow2(j) >= n ==> ret <= pow2(j),
            ret >= 1,
        decreases
            (if ret < n {
                (n - ret) as nat
            } else {
                0
            }),
    {
        proof {
            lemma_pow2_unfold(k + 1);
            assert(ret as int * 2 <= usize::MAX);
            assert forall|j: nat| #[trigger] pow2(j) >= n implies ret * 2 <= pow2(j) by {
                if j <= k {
                    lemma_pow2_monotone(j, k);
                } else {
                    lemma_pow2_monotone(k + 1, j);
                }
            }
        }
        ret = ret * 2;
        proof {
            k = k + 1;
        }
    }
    ret
}

/// Powers of two increase.
pub proof fn lemma_pow2_monotone(j: nat, k: nat)
    requires
        j <= k,
    ensures
        pow2(j) <= pow2(k),
    decreases k,
{
    if j < k {
        lemma_pow2_monotone(j, (k - 1) as nat);
        lemma_pow2_unfold(k);
    }
}

/// The rotations at which the columns of a circuit are opened.
pub open spec fn opened_rotations(rotations: Seq<isize>) -> Set<isize> {
    rotations.to_set().insert(0isize).insert(1isize)
}

/// The number of blinding rows that a circuit needs.
pub open spec fn blinding_rows<F: Field>(rotations: Seq<isize>) -> int {
    (opened_rotations(rotations).len() + 1) * ((31 + F::spec_num_bytes()) / F::spec_num_bytes())
}

/// The numbers strictly increase.
pub open spec fn strictly_increasing(s: Seq<isize>) -> bool {
    forall|i: int, j: int| 0 <= i < j < s.len() ==> (#[trigger] s[i]) < (#[trigger] s[j])
}

/// Inserts a number into an ordered list unless it is already there.
pub fn insert_number(set: &mut Vec<isize>, number: isize)
    requires
        strictly_increasing(old(set)@),
    ensures
        strictly_increasing(final(set)@),
        final(set)@.to_set() == old(set)@.to_set().insert(number),
{
    let ghost s = set@;
    let mut i: usize = 0;
    while i < set.len() && set[i] < number
        invariant
            i <= set.len(),
            set@ == s,
            strictly_increasing(s),
            forall|j: int| 0 <= j < i ==> (#[trigger] s[j]) < number,
        decreases set.len() - i,
    {
        i += 1;
    }
    if i < set.len() && set[i] == number {
        proof {
            assert(s.contains(number)) by {
                assert(s[i as int] == number);
            }
            assert(s.to_set().insert(number) =~= s.to_set());
        }
        return;
    }
    set.insert(i, number);
    proof {
        let r = set@;
        assert forall|j: int, k: int| 0 <= j < k < r.len() implies (#[trigger] r[j]) < (
        #[trigger] r[k]) by {
            assert(r[j] == if j < i {
                s[j]
            } else if j == i {
                number
            } else {
                s[j - 1]
            });
            assert(r[k] == if k < i {
                s[k]
            } else if k == i {
                number
            } else {
                s[k - 1]
            });
            if j == i && k - 1 > i {
                assert(s[i as int] < s[k - 1]);
            }
        }
        assert forall|v: isize| r.to_set().contains(v) <==> s.to_set().insert(number).contains(v) by {
            if r.contains(v) {
                let k = choose|k: int| 0 <= k < r.len() && r[k] == v;
                if k < i {
                    assert(s[k] == v);
                } else if k > i {
                    assert(s[k - 1] == v);
                }
            }
            if s.contains(v) {
                let k = choose|k: int| 0 <= k < s.len() && s[k] == v;
                if k < i {
                    assert(r[k] == v);
                } else {
                    assert(r[k + 1] == v);
                }
            }
            if v == number {
                assert(r[i as int] == v);
            }
        }
        assert(r.to_set() =~= s.to_set().insert(number));
    }
}

/// Returns the rotations at which the columns of a circuit are opened, in order.
///
/// NOTE: we're always including 0 and +1 because we need to open xi and xi*omega regardless;
/// they're needed for the final algebraic check and for the shifted permutation argument,
/// respectively.
pub fn rotation_set(rotations: &Vec<isize>) -> (ret: Vec<isize>)
    ensures
        strictly_increasing(ret@),
        ret@.to_set() == opened_rotations(rotations@),
        ret@.len() == opened_rotations(rotations@).len(),
{
    let mut set: Vec<isize> = Vec::new();
    let mut i: usize = 0;
    proof {
        assert(set@.to_set() =~= rotations@.subrange(0, 0).to_set());
    }
    while i < rotations.len()
        invariant
            i <= rotations.len(),
            strictly_increasing(set@),
            set@.to_set() == rotations@.subrange(0, i as int).to_set(),
        decreases rotations.len() - i,
    {
        insert_number(&mut set, rotations[i]);
        proof {
            let a = rotations@.subrange(0, i as int);
            let b = rotations@.subrange(0, i + 1);
            assert(b =~= a.push(rotations@[i as int]));
            assert forall|v: isize| b.to_set().contains(v) <==> a.to_set().insert(
                rotations@[i as int],
            ).contains(v) by {
                if b.contains(v) {
                    let k = choose|k: int| 0 <= k < b.len() && b[k] == v;
                    if k < i {
                        assert(a[k] == v);
                    }
                }
                if a.contains(v) {
                    let k = choose|k: int| 0 <= k < a.len() && a[k] == v;
                    assert(b[k] == v);
                }
                if v == rotations@[i as int] {
                    assert(b[i as int] == v);
                }
            }
            assert(b.to_set() =~= a.to_set().insert(rotations@[i as int]));
        }
        i += 1;
    }
    insert_number(&mut set, 0);
    insert_number(&mut set, 1);
    proof {
        assert(rotations@.subrange(0, rotations@.len() as int) =~= rotations@);
        assert(set@.no_duplicates());
        set@.unique_seq_to_set();
    }
    set
}

/// Calculates the final circuit size (number of rows) by adding the correct number of blinding rows
/// and rounding up to the next power of two.
///
/// The returned pair is `(degree_bound, num_blinding_rows)`, with `degree_bound` indicating the
/// total number of rows (always a power of two and suitable for use as the size of the evaluation
/// domain).
///
/// The number of blinding rows added is computed so that the added randomness absorbs the
/// information leak caused by opening all `rotations` used in the circuit and adds an extra 256
/// bits on top of that.
///
/// In the implementation we always force the 0 and +1 rotations into the set because the main
/// challenge xi and the shifted challenge xi*omega are always opened (for the final algebraic check
/// and the permutation argument, respectively) even if the circuit doesn't use those rotations.
///
/// NOTE: when using the extension field pattern (e.g. F=Goldilocks, G=Goldilocks^4) each opened
/// rotation `W(xi)`, `W(omega*xi)`, etc. reveals `G::BITS` bits of information about the witness
/// column `W`, not just `F::BITS` bits! That is because the challenge `xi` is in `G` (not in the
/// `F` subfield) and touches all coefficients of the polynomial upon evaluation, so an evaluation
/// yields 256 bits of information. For this reason our formula is:
///
///   num_blinding_rows = (num_rotations + 1) * ceil(32 / F::LEN)
///
/// ensuring that every opened rotation is absorbed by 256 bits of blinding and 256 bits of excess
/// are added on top of that.
pub fn padded_circuit_size<F: Field>(num_rows: usize, rotations: &Vec<isize>) -> (ret: (
    usize,
    usize,
))
    requires
        num_rows + blinding_rows::<F>(rotations@) <= usize::MAX / 2 + 1,
    ensures
        is_next_power_of_two(ret.0 as int, num_rows + blinding_rows::<F>(rotations@)),
        ret.1 == blinding_rows::<F>(rotations@),
{
    let set = rotation_set(rotations);
    proof {
        F::lemma_modulus();
    }
    let len: usize = F::num_bytes();
    let factor: usize = (31 + len) / len;
    proof {
        let n = set@.len() as int;
        assert(factor >= 1) by (nonlinear_arith)
            requires
                factor == (31 + len) / (len as int),
                1 <= len,
        ;
        assert((n + 1) * factor >= n + 1) by (nonlinear_arith)
            requires
                factor >= 1,
                n >= 0,
        ;
    }
    let num_blinding_rows: usize = (set.len() + 1) * factor;
    let degree_bound: usize = next_power_of_two(num_rows + num_blinding_rows);
    (degree_bound, num_blinding_rows)
}

/// Converting a number to a field element and back gives the same number, if its magnitude is at
/// most half the order of the field.
pub proof fn law_isize_round_trip(value: int, p: int)
    requires
        p > 1,
        -((p - 1) / 2) <= value <= (p - 1) / 2,
    ensures
        signed_value(value % p, p) == value,
{
    if value < 0 {
        assert(value % p == value + p) by (nonlinear_arith)
            requires
                -p < value < 0,
        ;
    } else {
        lemma_small(value, p);
    }
}

} // verus!
