//! Prime fields.
//!
//! A [`Field`] is a type whose values stand for the residues modulo a prime. Two fields are
//! provided: [`Scalar`], the 255-bit BlueSky field, and [`GL`], the 64-bit Goldilocks field.
use crate::arith::{is_inverse, lemma_cong_pow, lemma_mod_mul, lemma_small};
use crate::certificates::{lemma_bluesky_prime, lemma_goldilocks_prime};
use crate::primes::{has_inverses, lemma_prime_inverses};
use starkom_ff::{Field as OutsideField, Field256};
use vstd::arithmetic::div_mod::lemma_mod_twice;
use vstd::arithmetic::power::{
    lemma_pow0, lemma_pow1, lemma_pow_adds, lemma_pow_multiplies, lemma_square_is_pow2, pow,
};
use vstd::prelude::*;

verus! {

/// The order of the BlueSky field.
pub open spec fn bluesky_modulus() -> int {
    0x7ffffffffffffffffffffffffffffffe0673ddf29e9b5547c000000000000001int
}

/// The order of the Goldilocks field.
pub open spec fn goldilocks_modulus() -> int {
    0xffffffff00000001int
}

/// The number whose base-2^64 digits are `limbs`, least significant first.
pub open spec fn limbs_value(limbs: Seq<u64>) -> int
    recommends
        limbs.len() == 4,
{
    limbs[0] + limbs[1] * 0x1_0000000000000000int
        + limbs[2] * 0x1_0000000000000000_0000000000000000int
        + limbs[3] * 0x1_0000000000000000_0000000000000000_0000000000000000int
}

/// The decimal digit that stands for `d`.
pub open spec fn digit_char(d: int) -> char
    recommends
        0 <= d < 10,
{
    ((48 + d) as u8) as char
}

/// The decimal notation of `n`, without leading zeros.
pub open spec fn decimal(n: nat) -> Seq<char>
    decreases n,
{
    if n < 10 {
        seq![digit_char(n as int)]
    } else {
        decimal(n / 10).push(digit_char((n % 10) as int))
    }
}

/// The hexadecimal digit that stands for `d`.
pub open spec fn hex_char(d: int) -> char
    recommends
        0 <= d < 16,
{
    if d < 10 {
        ((48 + d) as u8) as char
    } else {
        ((87 + d) as u8) as char
    }
}

/// The last `digits` digits of `n` in hexadecimal notation.
pub open spec fn hexadecimal(n: int, digits: nat) -> Seq<char>
    decreases digits,
{
    if digits == 0 {
        seq![]
    } else {
        hexadecimal(n / 16, (digits - 1) as nat).push(hex_char(n % 16))
    }
}

/// The hexadecimal notation of an element of the BlueSky field: all 64 digits, with a prefix.
pub open spec fn scalar_text(n: int) -> Seq<char> {
    seq!['0', 'x'] + hexadecimal(n, 64)
}

/// The number of hexadecimal digits of the bytes that hold `n`.
pub open spec fn hex_width(n: int) -> nat
    decreases n,
{
    if n <= 0 {
        0
    } else {
        2 + hex_width(n / 256)
    }
}

/// The hexadecimal notation of an element of the field of order `p`: all digits, with a prefix.
pub open spec fn field_text(n: int, p: int) -> Seq<char> {
    seq!['0', 'x'] + hexadecimal(n, hex_width(p))
}

/// The value of `c` as a digit, or -1 if it is none.
pub open spec fn digit_value(c: char) -> int {
    if '0' <= c <= '9' {
        c as int - 48
    } else if 'a' <= c <= 'z' {
        c as int - 87
    } else if 'A' <= c <= 'Z' {
        c as int - 55
    } else {
        -1
    }
}

/// `s` is a non-empty sequence of digits in the given radix.
pub open spec fn is_numeral(s: Seq<char>, radix: int) -> bool {
    &&& s.len() > 0
    &&& forall|i: int| 0 <= i < s.len() ==> 0 <= digit_value(#[trigger] s[i]) < radix
}

/// The number that the digits `s` denote in the given radix.
pub open spec fn numeral_value(s: Seq<char>, radix: int) -> int
    decreases s.len(),
{
    if s.len() == 0 {
        0
    } else {
        numeral_value(s.drop_last(), radix) * radix + digit_value(s.last())
    }
}

/// `s` is a numeral in the given radix, of a number smaller than `p`.
pub open spec fn denotes_residue(s: Seq<char>, radix: int, p: int) -> bool {
    is_numeral(s, radix) && numeral_value(s, radix) < p
}

/// A prime field.
pub trait Field: Copy {
    /// The order of the field.
    spec fn modulus() -> int;

    /// The residue that this element stands for.
    spec fn value(self) -> int;

    /// The size of an element's encoding in bytes.
    spec fn spec_num_bytes() -> int;

    /// Every element stands for a residue.
    proof fn lemma_value_bounds(self)
        ensures
            0 <= self.value() < Self::modulus(),
    ;

    /// The order of the field is large enough to tell all [`isize`] values apart, and elements are
    /// encoded in 1 to 32 bytes.
    proof fn lemma_modulus()
        ensures
            Self::modulus() > 0xffff_ffff_0000_0000,
            Self::modulus() < 0x1_0000000000000000_0000000000000000_0000000000000000_0000000000000000int,
            1 <= Self::spec_num_bytes() <= 32,
    ;

    /// Every residue but 0 has an inverse: the order of the field is prime.
    proof fn lemma_inverses()
        ensures
            has_inverses(Self::modulus()),
    ;

    /// The size of an element's encoding in bytes.
    fn num_bytes() -> (ret: usize)
        ensures
            ret == Self::spec_num_bytes(),
    ;

    /// Converts an integer, which is reduced modulo the order of the field.
    fn from_u64(value: u64) -> (ret: Self)
        ensures
            ret.value() == value as int % Self::modulus(),
    ;

    /// Makes the element that stands for the given 256-bit number, or `None` if the number is not
    /// smaller than the order of the field.
    fn from_limbs(limbs: [u64; 4]) -> (ret: Option<Self>)
        ensures
            ret is Some <==> limbs_value(limbs@) < Self::modulus(),
            ret is Some ==> ret->Some_0.value() == limbs_value(limbs@),
    ;

    /// The residue that this element stands for.
    fn to_limbs(self) -> (ret: [u64; 4])
        ensures
            limbs_value(ret@) == self.value(),
    ;

    /// Field addition.
    fn plus(self, rhs: Self) -> (ret: Self)
        ensures
            ret.value() == (self.value() + rhs.value()) % Self::modulus(),
    ;

    /// Field subtraction.
    fn minus(self, rhs: Self) -> (ret: Self)
        ensures
            ret.value() == (self.value() - rhs.value()) % Self::modulus(),
    ;

    /// Field multiplication.
    fn times(self, rhs: Self) -> (ret: Self)
        ensures
            ret.value() == (self.value() * rhs.value()) % Self::modulus(),
    ;

    /// Additive inverse.
    fn negated(self) -> (ret: Self)
        ensures
            ret.value() == (-self.value()) % Self::modulus(),
    ;

    /// Multiplicative inverse, `None` for zero.
    fn invert(self) -> (ret: Option<Self>)
        ensures
            ret is Some <==> self.value() != 0,
            ret is Some ==> is_inverse(self.value(), ret->Some_0.value(), Self::modulus()),
    ;

    /// Exponentiation.
    fn pow(self, exponent: usize) -> (ret: Self)
        ensures
            ret.value() == pow(self.value(), exponent as nat) % Self::modulus(),
    ;

    /// The decimal notation of the residue.
    fn to_decimal(self) -> (ret: String)
        ensures
            ret@ == decimal(self.value() as nat),
    ;

    /// The hexadecimal notation of the residue, padded with zeros.
    fn to_hexadecimal(self) -> (ret: String)
        ensures
            ret@ == field_text(self.value(), Self::modulus()),
    ;
}

/// The field's zero.
pub fn zero<F: Field>() -> (ret: F)
    ensures
        ret.value() == 0,
{
    let ret = F::from_u64(0);
    proof {
        F::lemma_modulus();
        lemma_small(0, F::modulus());
    }
    ret
}

/// The field's one.
pub fn one<F: Field>() -> (ret: F)
    ensures
        ret.value() == 1,
{
    let ret = F::from_u64(1);
    proof {
        F::lemma_modulus();
        lemma_small(1, F::modulus());
    }
    ret
}

/// The number `limbs` is determined by its digits.
proof fn lemma_limbs_injective(a: Seq<u64>, b: Seq<u64>)
    requires
        a.len() == 4,
        b.len() == 4,
    ensures
        limbs_value(a) == limbs_value(b) <==> a == b,
        limbs_value(a) < limbs_value(b) <==> (a[3] < b[3] || (a[3] == b[3] && (a[2] < b[2] || (a[2]
            == b[2] && (a[1] < b[1] || (a[1] == b[1] && a[0] < b[0])))))),
{
    assert(a == b <==> (a[0] == b[0] && a[1] == b[1] && a[2] == b[2] && a[3] == b[3])) by {
        if a[0] == b[0] && a[1] == b[1] && a[2] == b[2] && a[3] == b[3] {
            assert(a =~= b);
        }
    }
}

/// Compares two 256-bit numbers.
pub fn limbs_less(a: [u64; 4], b: [u64; 4]) -> (ret: bool)
    ensures
        ret == (limbs_value(a@) < limbs_value(b@)),
{
    proof {
        lemma_limbs_injective(a@, b@);
    }
    if a[3] != b[3] {
        a[3] < b[3]
    } else if a[2] != b[2] {
        a[2] < b[2]
    } else if a[1] != b[1] {
        a[1] < b[1]
    } else {
        a[0] < b[0]
    }
}

/// Tells whether two elements stand for the same residue.
pub fn equal<F: Field>(a: F, b: F) -> (ret: bool)
    ensures
        ret == (a.value() == b.value()),
{
    let x = a.to_limbs();
    let y = b.to_limbs();
    proof {
        lemma_limbs_injective(x@, y@);
        assert(x@ == y@ <==> (x@[0] == y@[0] && x@[1] == y@[1] && x@[2] == y@[2] && x@[3]
            == y@[3])) by {
            if x@[0] == y@[0] && x@[1] == y@[1] && x@[2] == y@[2] && x@[3] == y@[3] {
                assert(x@ =~= y@);
            }
        }
    }
    x[0] == y[0] && x[1] == y[1] && x[2] == y[2] && x[3] == y[3]
}

/// Tells whether the residue of `a` is smaller than that of `b`.
pub fn less<F: Field>(a: F, b: F) -> (ret: bool)
    ensures
        ret == (a.value() < b.value()),
{
    limbs_less(a.to_limbs(), b.to_limbs())
}

/// Tells whether the element is zero.
pub fn is_zero<F: Field>(a: F) -> (ret: bool)
    ensures
        ret == (a.value() == 0),
{
    equal(a, zero::<F>())
}

/// An element of the BlueSky field.
#[derive(Debug, Clone, Copy)]
pub struct Scalar {
    /// The residue, as base-2^64 digits, least significant first.
    pub(crate) limbs: [u64; 4],
}

impl Scalar {
    #[verifier::type_invariant]
    spec fn is_reduced(self) -> bool {
        limbs_value(self.limbs@) < bluesky_modulus()
    }

    /// Wraps a reduced number.
    fn new(limbs: [u64; 4]) -> (ret: Self)
        requires
            limbs_value(limbs@) < bluesky_modulus(),
        ensures
            ret.value() == limbs_value(limbs@),
    {
        proof {
            lemma_small(limbs_value(limbs@), bluesky_modulus());
        }
        Scalar { limbs }
    }

    /// The digits of the residue.
    fn reduced(self) -> (ret: [u64; 4])
        ensures
            limbs_value(ret@) == self.value(),
            limbs_value(ret@) < bluesky_modulus(),
    {
        proof {
            use_type_invariant(&self);
            lemma_small(limbs_value(self.limbs@), bluesky_modulus());
        }
        self.limbs
    }

    /// The residue is one that [`Self::random`] draws from the outside source of randomness.
    pub closed spec fn drawn(value: int) -> bool {
        exists|limbs: [u64; 4]| #[trigger]
            call_ensures(bluesky_random, (), limbs) && limbs_value(limbs@) == value
    }

    /// Draws a uniformly distributed element.
    ///
    /// The element is one that was drawn. Nothing is stated of which one it is.
    pub fn random() -> (ret: Self)
        ensures
            Scalar::drawn(ret.value()),
    {
        let limbs = bluesky_random();
        assert(call_ensures(bluesky_random, (), limbs));
        Scalar::new(limbs)
    }

    /// The hexadecimal notation of the residue, padded with zeros.
    pub fn to_string(&self) -> (ret: String)
        ensures
            ret@ == scalar_text(self.value()),
    {
        bluesky_to_string(self.reduced())
    }

    /// Parses a non-empty sequence of digits in the given radix, which is between 2 and 36.
    pub fn from_str_radix(s: &str, radix: usize) -> (ret: Option<Self>)
        requires
            2 <= radix <= 36,
        ensures
            ret is Some <==> denotes_residue(s@, radix as int, bluesky_modulus()),
            ret is Some ==> ret->Some_0.value() == numeral_value(s@, radix as int),
    {
        match bluesky_from_str_radix(s, radix) {
            Some(limbs) => Some(Scalar::new(limbs)),
            None => None,
        }
    }
}

impl Field for Scalar {
    open spec fn modulus() -> int {
        bluesky_modulus()
    }

    closed spec fn value(self) -> int {
        limbs_value(self.limbs@) % bluesky_modulus()
    }

    open spec fn spec_num_bytes() -> int {
        32
    }

    proof fn lemma_value_bounds(self) {
    }

    proof fn lemma_modulus() {
    }

    proof fn lemma_inverses() {
        lemma_bluesky_prime();
        lemma_prime_inverses(bluesky_modulus());
    }

    fn num_bytes() -> (ret: usize) {
        32
    }

    fn from_u64(value: u64) -> (ret: Self) {
        let limbs: [u64; 4] = [value, 0, 0, 0];
        proof {
            lemma_small(value as int, bluesky_modulus());
        }
        Scalar::new(limbs)
    }

    fn from_limbs(limbs: [u64; 4]) -> (ret: Option<Self>) {
        let modulus: [u64; 4] = [
            0xc000000000000001,
            0x0673ddf29e9b5547,
            0xfffffffffffffffe,
            0x7fffffffffffffff,
        ];
        assert(limbs_value(modulus@) == bluesky_modulus());
        if limbs_less(limbs, modulus) {
            Some(Scalar::new(limbs))
        } else {
            None
        }
    }

    fn to_limbs(self) -> (ret: [u64; 4]) {
        self.reduced()
    }

    fn plus(self, rhs: Self) -> (ret: Self) {
        Scalar::new(bluesky_add(self.reduced(), rhs.reduced()))
    }

    fn minus(self, rhs: Self) -> (ret: Self) {
        Scalar::new(bluesky_sub(self.reduced(), rhs.reduced()))
    }

    fn times(self, rhs: Self) -> (ret: Self) {
        Scalar::new(bluesky_mul(self.reduced(), rhs.reduced()))
    }

    fn negated(self) -> (ret: Self) {
        Scalar::new(bluesky_neg(self.reduced()))
    }

    fn invert(self) -> (ret: Option<Self>) {
        match bluesky_invert(self.reduced()) {
            Some(limbs) => Some(Scalar::new(limbs)),
            None => None,
        }
    }

    fn pow(self, exponent: usize) -> (ret: Self) {
        Scalar::new(bluesky_pow(self.reduced(), exponent))
    }

    fn to_decimal(self) -> (ret: String) {
        bluesky_to_decimal(self.reduced())
    }

    fn to_hexadecimal(self) -> (ret: String) {
        proof {
            reveal_with_fuel(hex_width, 33);
            assert(hex_width(bluesky_modulus()) == 64);
        }
        self.to_string()
    }
}

impl PartialEq for Scalar {
    fn eq(&self, other: &Self) -> (ret: bool) {
        equal(*self, *other)
    }
}

impl Eq for Scalar {
}

impl PartialOrd for Scalar {
    fn partial_cmp(&self, other: &Self) -> (ret: Option<core::cmp::Ordering>) {
        if less(*self, *other) {
            Some(core::cmp::Ordering::Less)
        } else if less(*other, *self) {
            Some(core::cmp::Ordering::Greater)
        } else {
            Some(core::cmp::Ordering::Equal)
        }
    }
}

impl vstd::std_specs::cmp::PartialOrdSpecImpl for Scalar {
    open spec fn obeys_partial_cmp_spec() -> bool {
        true
    }

    open spec fn partial_cmp_spec(&self, other: &Self) -> Option<core::cmp::Ordering> {
        if self.value() < other.value() {
            Some(core::cmp::Ordering::Less)
        } else if self.value() > other.value() {
            Some(core::cmp::Ordering::Greater)
        } else {
            Some(core::cmp::Ordering::Equal)
        }
    }
}

impl vstd::std_specs::cmp::PartialEqSpecImpl for Scalar {
    open spec fn obeys_eq_spec() -> bool {
        true
    }

    open spec fn eq_spec(&self, other: &Self) -> bool {
        self.value() == other.value()
    }
}

impl core::ops::Add for Scalar {
    type Output = Scalar;

    fn add(self, rhs: Scalar) -> (ret: Scalar)
        ensures
            ret.value() == (self.value() + rhs.value()) % bluesky_modulus(),
    {
        self.plus(rhs)
    }
}

impl vstd::std_specs::ops::AddSpecImpl for Scalar {
    open spec fn obeys_add_spec() -> bool {
        false
    }

    open spec fn add_req(self, rhs: Scalar) -> bool {
        true
    }

    open spec fn add_spec(self, rhs: Scalar) -> Scalar {
        arbitrary()
    }
}

impl core::ops::Sub for Scalar {
    type Output = Scalar;

    fn sub(self, rhs: Scalar) -> (ret: Scalar)
        ensures
            ret.value() == (self.value() - rhs.value()) % bluesky_modulus(),
    {
        self.minus(rhs)
    }
}

impl vstd::std_specs::ops::SubSpecImpl for Scalar {
    open spec fn obeys_sub_spec() -> bool {
        false
    }

    open spec fn sub_req(self, rhs: Scalar) -> bool {
        true
    }

    open spec fn sub_spec(self, rhs: Scalar) -> Scalar {
        arbitrary()
    }
}

impl core::ops::Mul for Scalar {
    type Output = Scalar;

    fn mul(self, rhs: Scalar) -> (ret: Scalar)
        ensures
            ret.value() == (self.value() * rhs.value()) % bluesky_modulus(),
    {
        self.times(rhs)
    }
}

impl vstd::std_specs::ops::MulSpecImpl for Scalar {
    open spec fn obeys_mul_spec() -> bool {
        false
    }

    open spec fn mul_req(self, rhs: Scalar) -> bool {
        true
    }

    open spec fn mul_spec(self, rhs: Scalar) -> Scalar {
        arbitrary()
    }
}

impl core::ops::Neg for Scalar {
    type Output = Scalar;

    fn neg(self) -> (ret: Scalar)
        ensures
            ret.value() == (-self.value()) % bluesky_modulus(),
    {
        self.negated()
    }
}

impl vstd::std_specs::ops::NegSpecImpl for Scalar {
    open spec fn obeys_neg_spec() -> bool {
        false
    }

    open spec fn neg_req(self) -> bool {
        true
    }

    open spec fn neg_spec(self) -> Scalar {
        arbitrary()
    }
}

impl Default for Scalar {
    fn default() -> (ret: Self)
        ensures
            ret.value() == 0,
    {
        zero()
    }
}

/// The element that stands for the given number.
pub fn from_const(value: u64) -> (ret: Scalar)
    ensures
        ret.value() == value,
{
    proof {
        lemma_small(value as int, bluesky_modulus());
    }
    Scalar::from_u64(value)
}

/// The generator of the BlueSky field's multiplicative group that the library uses to tell columns
/// apart.
pub fn multiplicative_generator() -> (ret: Scalar)
    ensures
        ret.value() == 5,
{
    let limbs = bluesky_generator();
    Scalar::new(limbs)
}

/// Addition of [`starkom_bluesky::Scalar`]: the sum of the residues, reduced.
#[verifier::external_body]
fn bluesky_add(a: [u64; 4], b: [u64; 4]) -> (ret: [u64; 4])
    requires
        limbs_value(a@) < bluesky_modulus(),
        limbs_value(b@) < bluesky_modulus(),
    ensures
        limbs_value(ret@) == (limbs_value(a@) + limbs_value(b@)) % bluesky_modulus(),
{
    let a = starkom_bluesky::Scalar::try_from(primitive_types::U256(a)).unwrap();
    let b = starkom_bluesky::Scalar::try_from(primitive_types::U256(b)).unwrap();
    (a + b).to_u256().0
}

/// Subtraction of [`starkom_bluesky::Scalar`]: the difference of the residues, reduced.
#[verifier::external_body]
fn bluesky_sub(a: [u64; 4], b: [u64; 4]) -> (ret: [u64; 4])
    requires
        limbs_value(a@) < bluesky_modulus(),
        limbs_value(b@) < bluesky_modulus(),
    ensures
        limbs_value(ret@) == (limbs_value(a@) - limbs_value(b@)) % bluesky_modulus(),
{
    let a = starkom_bluesky::Scalar::try_from(primitive_types::U256(a)).unwrap();
    let b = starkom_bluesky::Scalar::try_from(primitive_types::U256(b)).unwrap();
    (a - b).to_u256().0
}

/// Multiplication of [`starkom_bluesky::Scalar`]: the product of the residues, reduced.
#[verifier::external_body]
fn bluesky_mul(a: [u64; 4], b: [u64; 4]) -> (ret: [u64; 4])
    requires
        limbs_value(a@) < bluesky_modulus(),
        limbs_value(b@) < bluesky_modulus(),
    ensures
        limbs_value(ret@) == (limbs_value(a@) * limbs_value(b@)) % bluesky_modulus(),
{
    let a = starkom_bluesky::Scalar::try_from(primitive_types::U256(a)).unwrap();
    let b = starkom_bluesky::Scalar::try_from(primitive_types::U256(b)).unwrap();
    (a * b).to_u256().0
}

/// Negation of [`starkom_bluesky::Scalar`]: the additive inverse, reduced.
#[verifier::external_body]
fn bluesky_neg(a: [u64; 4]) -> (ret: [u64; 4])
    requires
        limbs_value(a@) < bluesky_modulus(),
    ensures
        limbs_value(ret@) == (-limbs_value(a@)) % bluesky_modulus(),
{
    let a = starkom_bluesky::Scalar::try_from(primitive_types::U256(a)).unwrap();
    (-a).to_u256().0
}

/// `invert_vartime` of [`starkom_bluesky::Scalar`]: the multiplicative inverse, which every residue
/// but zero has because the order of the field is prime.
#[verifier::external_body]
fn bluesky_invert(a: [u64; 4]) -> (ret: Option<[u64; 4]>)
    requires
        limbs_value(a@) < bluesky_modulus(),
    ensures
        ret is Some <==> limbs_value(a@) != 0,
        ret is Some ==> is_inverse(
            limbs_value(a@),
            limbs_value((ret->Some_0)@),
            bluesky_modulus(),
        ),
{
    let a = starkom_bluesky::Scalar::try_from(primitive_types::U256(a)).unwrap();
    a.invert_vartime().map(|inverse| inverse.to_u256().0)
}

/// `pow_small` of [`starkom_bluesky::Scalar`]: the residue raised to the given power.
#[verifier::external_body]
fn bluesky_pow(a: [u64; 4], exponent: usize) -> (ret: [u64; 4])
    requires
        limbs_value(a@) < bluesky_modulus(),
    ensures
        limbs_value(ret@) == pow(limbs_value(a@), exponent as nat) % bluesky_modulus(),
{
    let a = starkom_bluesky::Scalar::try_from(primitive_types::U256(a)).unwrap();
    a.pow_small(exponent).to_u256().0
}

/// `random_default` of [`starkom_bluesky::Scalar`]: some residue, reduced. Its distribution is not
/// stated.
#[verifier::external_body]
fn bluesky_random() -> (ret: [u64; 4])
    ensures
        limbs_value(ret@) < bluesky_modulus(),
{
    starkom_bluesky::Scalar::random_default().to_u256().0
}

/// The constant `MULTIPLICATIVE_GENERATOR` of [`starkom_bluesky::Scalar`], which is 5.
#[verifier::external_body]
fn bluesky_generator() -> (ret: [u64; 4])
    ensures
        limbs_value(ret@) == 5,
{
    <starkom_bluesky::Scalar as starkom_ff::PrimeField>::MULTIPLICATIVE_GENERATOR.to_u256().0
}

/// `from_str_radix` of [`starkom_bluesky::Scalar`]: the number that the digits denote. It is refused
/// if there are no digits, if a character is not a digit of that radix, or if the number is not
/// smaller than the order of the field.
#[verifier::external_body]
fn bluesky_from_str_radix(s: &str, radix: usize) -> (ret: Option<[u64; 4]>)
    requires
        2 <= radix <= 36,
    ensures
        ret is Some <==> denotes_residue(s@, radix as int, bluesky_modulus()),
        ret is Some ==> limbs_value((ret->Some_0)@) == numeral_value(s@, radix as int),
{
    starkom_bluesky::Scalar::from_str_radix(s, radix).ok().map(|value| value.to_u256().0)
}

/// `to_string` of [`starkom_bluesky::Scalar`]: the prefix `0x` and the 64 hexadecimal digits of the
/// residue, in lower case.
#[verifier::external_body]
fn bluesky_to_string(a: [u64; 4]) -> (ret: String)
    requires
        limbs_value(a@) < bluesky_modulus(),
    ensures
        ret@ == scalar_text(limbs_value(a@)),
{
    starkom_bluesky::Scalar::try_from(primitive_types::U256(a)).unwrap().to_string()
}

/// `to_str_radix` of [`starkom_bluesky::Scalar`] in radix 10 and without padding: the decimal
/// notation of the residue.
#[verifier::external_body]
fn bluesky_to_decimal(a: [u64; 4]) -> (ret: String)
    requires
        limbs_value(a@) < bluesky_modulus(),
    ensures
        ret@ == decimal(limbs_value(a@) as nat),
{
    let a = starkom_bluesky::Scalar::try_from(primitive_types::U256(a)).unwrap();
    a.to_str_radix(10, 0, false)
}

/// One step of exponentiation by squaring.
proof fn lemma_square_step(b: int, e: nat, p: int)
    requires
        p > 0,
    ensures
        e % 2 == 0 ==> pow(b, e) % p == pow((b * b) % p, e / 2) % p,
        e % 2 == 1 ==> pow(b, e) % p == (b * pow((b * b) % p, e / 2)) % p,
{
    let half = e / 2;
    lemma_square_is_pow2(b);
    lemma_pow_multiplies(b, 2, half);
    lemma_mod_twice(b * b, p);
    lemma_cong_pow(b * b, (b * b) % p, half, p);
    if e % 2 == 1 {
        assert(e == 2 * half + 1);
        lemma_pow_adds(b, 1, 2 * half);
        lemma_pow1(b);
        lemma_mod_mul(b, pow(b * b, half), p);
        lemma_mod_mul(b, pow((b * b) % p, half), p);
    } else {
        assert(e == 2 * half);
    }
}

/// The order of the Goldilocks field.
const GOLDILOCKS_MODULUS: u64 = 0xffffffff00000001;

/// An element of the Goldilocks field.
#[derive(Debug, Clone, Copy)]
pub struct GL {
    /// The residue.
    residue: u64,
}

impl GL {
    #[verifier::type_invariant]
    spec fn is_reduced(self) -> bool {
        self.residue < GOLDILOCKS_MODULUS
    }

    /// Reduces a number.
    fn reduce(value: u128) -> (ret: Self)
        ensures
            ret.value() == value as int % goldilocks_modulus(),
    {
        let residue: u64 = (value % (GOLDILOCKS_MODULUS as u128)) as u64;
        proof {
            lemma_small(residue as int, goldilocks_modulus());
        }
        GL { residue }
    }

    /// The residue.
    fn reduced(self) -> (ret: u64)
        ensures
            ret == self.value(),
            ret < GOLDILOCKS_MODULUS,
    {
        proof {
            use_type_invariant(&self);
            lemma_small(self.residue as int, goldilocks_modulus());
        }
        self.residue
    }
}

impl Field for GL {
    open spec fn modulus() -> int {
        goldilocks_modulus()
    }

    closed spec fn value(self) -> int {
        self.residue as int % goldilocks_modulus()
    }

    open spec fn spec_num_bytes() -> int {
        8
    }

    proof fn lemma_value_bounds(self) {
    }

    proof fn lemma_modulus() {
    }

    proof fn lemma_inverses() {
        lemma_goldilocks_prime();
        lemma_prime_inverses(goldilocks_modulus());
    }

    fn num_bytes() -> (ret: usize) {
        8
    }

    fn from_u64(value: u64) -> (ret: Self) {
        GL::reduce(value as u128)
    }

    fn from_limbs(limbs: [u64; 4]) -> (ret: Option<Self>) {
        if limbs[1] == 0 && limbs[2] == 0 && limbs[3] == 0 && limbs[0] < GOLDILOCKS_MODULUS {
            proof {
                lemma_small(limbs[0] as int, goldilocks_modulus());
            }
            Some(GL::reduce(limbs[0] as u128))
        } else {
            None
        }
    }

    fn to_limbs(self) -> (ret: [u64; 4]) {
        [self.reduced(), 0, 0, 0]
    }

    fn plus(self, rhs: Self) -> (ret: Self) {
        GL::reduce(self.reduced() as u128 + rhs.reduced() as u128)
    }

    fn minus(self, rhs: Self) -> (ret: Self) {
        let a: u64 = self.reduced();
        let b: u64 = rhs.reduced();
        proof {
            let p = goldilocks_modulus();
            assert((a - b) % p == (a + (p - b)) % p) by (nonlinear_arith)
                requires
                    p > 0,
            ;
        }
        GL::reduce(a as u128 + (GOLDILOCKS_MODULUS - b) as u128)
    }

    fn times(self, rhs: Self) -> (ret: Self) {
        let a: u64 = self.reduced();
        let b: u64 = rhs.reduced();
        proof {
            assert(0 <= a * b <= 0xffff_ffff_ffff_ffff * 0xffff_ffff_ffff_ffff) by (nonlinear_arith)
                requires
                    0 <= a <= 0xffff_ffff_ffff_ffff,
                    0 <= b <= 0xffff_ffff_ffff_ffff,
            ;
        }
        GL::reduce(a as u128 * b as u128)
    }

    fn negated(self) -> (ret: Self) {
        let a: u64 = self.reduced();
        proof {
            let p = goldilocks_modulus();
            assert((-a) % p == (p - a) % p) by (nonlinear_arith)
                requires
                    p > 0,
            ;
        }
        GL::reduce((GOLDILOCKS_MODULUS - a) as u128)
    }

    fn invert(self) -> (ret: Option<Self>) {
        let a: u64 = self.reduced();
        if a == 0 {
            None
        } else {
            let inverse: u64 = goldilocks_reciprocal(a);
            proof {
                lemma_small(inverse as int, goldilocks_modulus());
            }
            Some(GL::reduce(inverse as u128))
        }
    }

    fn pow(self, exponent: usize) -> (ret: Self) {
        let ghost p = goldilocks_modulus();
        let mut result: GL = GL::reduce(1);
        let mut base: GL = self;
        let mut rest: usize = exponent;
        proof {
            lemma_small(1, p);
        }
        while rest > 0
            invariant
                p == goldilocks_modulus(),
                (result.value() * pow(base.value(), rest as nat)) % p == pow(
                    self.value(),
                    exponent as nat,
                ) % p,
            decreases rest,
        {
            let ghost b = base.value();
            let ghost r = result.value();
            let ghost half = (rest / 2) as nat;
            proof {
                lemma_square_step(b, rest as nat, p);
                lemma_mod_mul(r, pow(b, rest as nat), p);
            }
            if rest % 2 == 1 {
                result = result.times(base);
                proof {
                    lemma_mod_mul(r, pow(b, rest as nat), p);
                    lemma_mod_mul(r, b * pow((b * b) % p, half), p);
                    lemma_mod_mul(r * b, pow((b * b) % p, half), p);
                    assert(r * (b * pow((b * b) % p, half)) == (r * b) * pow((b * b) % p, half))
                        by (nonlinear_arith);
                }
            } else {
                proof {
                    lemma_mod_mul(r, pow((b * b) % p, half), p);
                }
            }
            base = base.times(base);
            rest = rest / 2;
        }
        proof {
            lemma_pow0(base.value());
            result.lemma_value_bounds();
            lemma_small(result.value(), p);
        }
        result
    }

    fn to_decimal(self) -> (ret: String) {
        from_const(self.reduced()).to_decimal()
    }

    fn to_hexadecimal(self) -> (ret: String) {
        proof {
            reveal_with_fuel(hex_width, 9);
            assert(hex_width(goldilocks_modulus()) == 16);
        }
        goldilocks_to_string(self.reduced())
    }
}

impl PartialEq for GL {
    fn eq(&self, other: &Self) -> (ret: bool) {
        equal(*self, *other)
    }
}

impl Eq for GL {
}

impl PartialOrd for GL {
    fn partial_cmp(&self, other: &Self) -> (ret: Option<core::cmp::Ordering>) {
        if less(*self, *other) {
            Some(core::cmp::Ordering::Less)
        } else if less(*other, *self) {
            Some(core::cmp::Ordering::Greater)
        } else {
            Some(core::cmp::Ordering::Equal)
        }
    }
}

impl vstd::std_specs::cmp::PartialOrdSpecImpl for GL {
    open spec fn obeys_partial_cmp_spec() -> bool {
        true
    }

    open spec fn partial_cmp_spec(&self, other: &Self) -> Option<core::cmp::Ordering> {
        if self.value() < other.value() {
            Some(core::cmp::Ordering::Less)
        } else if self.value() > other.value() {
            Some(core::cmp::Ordering::Greater)
        } else {
            Some(core::cmp::Ordering::Equal)
        }
    }
}

impl vstd::std_specs::cmp::PartialEqSpecImpl for GL {
    open spec fn obeys_eq_spec() -> bool {
        true
    }

    open spec fn eq_spec(&self, other: &Self) -> bool {
        self.value() == other.value()
    }
}

/// Division of [`starkom_goldilocks::GL`], with dividend 1: the multiplicative inverse, which every
/// residue but zero has because the order of the field is prime.
#[verifier::external_body]
fn goldilocks_reciprocal(a: u64) -> (ret: u64)
    requires
        0 < a < GOLDILOCKS_MODULUS,
    ensures
        is_inverse(a as int, ret as int, goldilocks_modulus()),
{
    let quotient = starkom_goldilocks::from_const(1) / starkom_goldilocks::from_const(a);
    u64::from_str_radix(&format!("{:x}", quotient), 16).unwrap()
}

/// `to_string` of [`starkom_goldilocks::GL`]: the prefix `0x` and the 16 hexadecimal digits of the
/// residue, in lower case.
#[verifier::external_body]
fn goldilocks_to_string(a: u64) -> (ret: String)
    requires
        a < GOLDILOCKS_MODULUS,
    ensures
        ret@ == seq!['0', 'x'] + hexadecimal(a as int, 16),
{
    starkom_goldilocks::from_const(a).to_string()
}

} // verus!
