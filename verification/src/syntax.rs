//! What constraint expressions mean.
use crate::algebra::{
    lemma_mono_pow_exponent, lemma_mono_pow_wf, lemma_power_monos_wf, lemma_power_single,
    lemma_product_monos_wf, mono_pow,
};
use crate::arith::{
    inverse, invertible, is_inverse, lemma_cong_add, lemma_cong_mul, lemma_cong_pow, lemma_cong_sub,
    lemma_inverse_unique, lemma_mod_mul, lemma_small, mod_pow,
};
use crate::evaluation::{
    lemma_mod_pow_add, lemma_value_concat, lemma_value_product, lemma_value_same_terms,
    mono_defined, terms_defined,
};
use crate::expr::{const_terms, is_normal_form, signed_power_terms, var_terms};
use crate::field::field_text;
use crate::laws::{lemma_normal_form_same, lemma_power_value, lemma_product_defined};
use crate::lexer::Lexeme;
use crate::normalization::law_normal_form_exists;
use crate::parser::{
    constant_of, divided, expect, exponent_at, leaf_at, multiplied, normal_form, opposite, power_at,
    power_rest, product_at, product_rest, raised, rotation_at, sum_at, sum_rest, unary_at,
    variable_at, Parsed, ParserFault,
};
use crate::roundtrip::{ends_power, ends_product, ends_sum, lemma_stand_split, stand_at};
use crate::terms::{
    exponent, lemma_coeff_absent, lemma_coeff_at, lemma_mono_mul_exponent, lemma_mono_mul_wf,
    lemma_mono_unique, mono_mul, mono_value, mono_wf, monos_wf, power_terms, product_terms,
    scale_terms, terms_value, terms_wf, weighted_sum, Mono, Terms,
};
use crate::text::expression_text;
use crate::utils::{range_fault, signed_value};
use crate::variable::{var_less, Variable};
use vstd::arithmetic::div_mod::lemma_mod_twice;
use vstd::arithmetic::power::{lemma_pow0, lemma_pow1, lemma_pow_adds, pow};
use vstd::prelude::*;

verus! {

/// How an expression is written: a tree whose nodes are the operations.
pub ghost enum Syntax {
    /// A number, written in one of the notations for numbers.
    Number { lexeme: Lexeme, value: int },
    /// A variable without a rotation: `var(column)`.
    Variable { column: Box<Syntax> },
    /// A variable with a rotation: `var(column, +distance)` or `var(column, -distance)`.
    Rotated { column: Box<Syntax>, up: bool, distance: int },
    /// `(inner)`.
    Brackets { inner: Box<Syntax> },
    /// `+inner`.
    Plus { inner: Box<Syntax> },
    /// `-inner`.
    Minus { inner: Box<Syntax> },
    /// `lhs ^ rhs`.
    Power { lhs: Box<Syntax>, rhs: Box<Syntax> },
    /// `lhs * rhs`.
    Multiply { lhs: Box<Syntax>, rhs: Box<Syntax> },
    /// `lhs / rhs`.
    Divide { lhs: Box<Syntax>, rhs: Box<Syntax> },
    /// `lhs + rhs`.
    Add { lhs: Box<Syntax>, rhs: Box<Syntax> },
    /// `lhs - rhs`.
    Subtract { lhs: Box<Syntax>, rhs: Box<Syntax> },
}

/// How tightly the outermost operation binds: 0 for numbers, variables and brackets, 1 for signs, 2
/// for powers, 3 for products and quotients, 4 for sums and differences.
pub open spec fn looseness(e: Syntax) -> int {
    match e {
        Syntax::Number { .. } => 0,
        Syntax::Variable { .. } => 0,
        Syntax::Rotated { .. } => 0,
        Syntax::Brackets { .. } => 0,
        Syntax::Plus { .. } => 1,
        Syntax::Minus { .. } => 1,
        Syntax::Power { .. } => 2,
        Syntax::Multiply { .. } => 3,
        Syntax::Divide { .. } => 3,
        Syntax::Add { .. } => 4,
        Syntax::Subtract { .. } => 4,
    }
}

/// The lexeme is a number with the given value.
pub open spec fn is_number(lexeme: Lexeme, value: int) -> bool {
    lexeme == Lexeme::Number2(value) || lexeme == Lexeme::Number8(value) || lexeme
        == Lexeme::Number10(value) || lexeme == Lexeme::Number16(value)
}

/// Operations that bind less tightly stand in brackets. Operations that bind equally tightly are
/// grouped from the left.
pub open spec fn well_grouped(e: Syntax) -> bool
    decreases e,
{
    match e {
        Syntax::Number { lexeme, value } => is_number(lexeme, value) && value >= 0,
        Syntax::Variable { column } => well_grouped(*column),
        Syntax::Rotated { column, up, distance } => well_grouped(*column) && distance >= 0,
        Syntax::Brackets { inner } => well_grouped(*inner),
        Syntax::Plus { inner } => well_grouped(*inner) && looseness(*inner) <= 1,
        Syntax::Minus { inner } => well_grouped(*inner) && looseness(*inner) <= 1,
        Syntax::Power { lhs, rhs } => well_grouped(*lhs) && well_grouped(*rhs) && looseness(*lhs)
            <= 2 && looseness(*rhs) <= 1,
        Syntax::Multiply { lhs, rhs } => well_grouped(*lhs) && well_grouped(*rhs) && looseness(
            *lhs,
        ) <= 3 && looseness(*rhs) <= 2,
        Syntax::Divide { lhs, rhs } => well_grouped(*lhs) && well_grouped(*rhs) && looseness(*lhs)
            <= 3 && looseness(*rhs) <= 2,
        Syntax::Add { lhs, rhs } => well_grouped(*lhs) && well_grouped(*rhs) && looseness(*lhs)
            <= 4 && looseness(*rhs) <= 3,
        Syntax::Subtract { lhs, rhs } => well_grouped(*lhs) && well_grouped(*rhs) && looseness(
            *lhs,
        ) <= 4 && looseness(*rhs) <= 3,
    }
}

/// The tokens of an expression.
pub open spec fn written(e: Syntax) -> Seq<Lexeme>
    decreases e,
{
    match e {
        Syntax::Number { lexeme, value } => seq![lexeme],
        Syntax::Variable { column } => seq![Lexeme::Identifier("var"@), Lexeme::LeftBracket] + (
        written(*column) + seq![Lexeme::RightBracket]),
        Syntax::Rotated { column, up, distance } => seq![
            Lexeme::Identifier("var"@),
            Lexeme::LeftBracket,
        ] + (written(*column) + seq![
            Lexeme::Comma,
            if up {
                Lexeme::Minus
            } else {
                Lexeme::Plus
            },
            Lexeme::Number10(distance),
            Lexeme::RightBracket,
        ]),
        Syntax::Brackets { inner } => seq![Lexeme::LeftBracket] + (written(*inner) + seq![
            Lexeme::RightBracket,
        ]),
        Syntax::Plus { inner } => seq![Lexeme::Plus] + written(*inner),
        Syntax::Minus { inner } => seq![Lexeme::Minus] + written(*inner),
        Syntax::Power { lhs, rhs } => written(*lhs) + (seq![Lexeme::Power] + written(*rhs)),
        Syntax::Multiply { lhs, rhs } => written(*lhs) + (seq![Lexeme::Multiply] + written(*rhs)),
        Syntax::Divide { lhs, rhs } => written(*lhs) + (seq![Lexeme::Divide] + written(*rhs)),
        Syntax::Add { lhs, rhs } => written(*lhs) + (seq![Lexeme::Plus] + written(*rhs)),
        Syntax::Subtract { lhs, rhs } => written(*lhs) + (seq![Lexeme::Minus] + written(*rhs)),
    }
}

/// The variable with the given column, which is a residue, and rotation.
pub open spec fn column_terms(t: Terms, rotation: Result<int, ParserFault>, p: int) -> Result<
    Terms,
    ParserFault,
> {
    match constant_of(t) {
        None => Err(ParserFault::ColumnIndexNotConstant(expression_text(t, p))),
        Some(value) => {
            let column = signed_value(value, p);
            if !(isize::MIN <= column <= isize::MAX) {
                Err(ParserFault::OutOfRange(range_fault(value, p)))
            } else if column < 0 {
                Err(ParserFault::NegativeColumnIndex(column))
            } else {
                match rotation {
                    Err(error) => Err(error),
                    Ok(rotation) => Ok(
                        var_terms(
                            Variable {
                                column_index: column as usize,
                                rotation: rotation as isize,
                            },
                        ),
                    ),
                }
            }
        },
    }
}

/// The rotation of a variable.
pub open spec fn rotation_of(up: bool, distance: int, p: int) -> Result<int, ParserFault> {
    if distance >= p {
        Err(ParserFault::NumberTooLarge)
    } else if distance > (p - 1) / 2 || distance > isize::MAX {
        Err(ParserFault::RotationTooLarge(field_text(distance, p)))
    } else if up {
        Ok(-distance)
    } else {
        Ok(distance)
    }
}

/// A power whose exponent is an expression.
pub open spec fn power_of(base: Terms, t: Terms, p: int) -> Result<Terms, ParserFault> {
    match constant_of(t) {
        None => Err(ParserFault::ExponentNotConstant),
        Some(value) => if isize::MIN <= signed_value(value, p) <= isize::MAX {
            raised(base, signed_value(value, p), p)
        } else {
            Err(ParserFault::OutOfRange(range_fault(value, p)))
        },
    }
}

/// The terms that an expression is read as.
pub open spec fn reading(e: Syntax, p: int) -> Result<Terms, ParserFault>
    decreases e,
{
    match e {
        Syntax::Number { lexeme, value } => if value >= p {
            Err(ParserFault::NumberTooLarge)
        } else {
            Ok(const_terms(value))
        },
        Syntax::Variable { column } => match reading(*column, p) {
            Err(error) => Err(error),
            Ok(t) => column_terms(t, Ok(0), p),
        },
        Syntax::Rotated { column, up, distance } => match reading(*column, p) {
            Err(error) => Err(error),
            Ok(t) => column_terms(t, rotation_of(up, distance, p), p),
        },
        Syntax::Brackets { inner } => reading(*inner, p),
        Syntax::Plus { inner } => reading(*inner, p),
        Syntax::Minus { inner } => match reading(*inner, p) {
            Err(error) => Err(error),
            Ok(t) => Ok(normal_form(opposite(t), p)),
        },
        Syntax::Power { lhs, rhs } => match reading(*lhs, p) {
            Err(error) => Err(error),
            Ok(a) => match reading(*rhs, p) {
                Err(error) => Err(error),
                Ok(b) => power_of(a, b, p),
            },
        },
        Syntax::Multiply { lhs, rhs } => match reading(*lhs, p) {
            Err(error) => Err(error),
            Ok(a) => match reading(*rhs, p) {
                Err(error) => Err(error),
                Ok(b) => multiplied(a, b, p),
            },
        },
        Syntax::Divide { lhs, rhs } => match reading(*lhs, p) {
            Err(error) => Err(error),
            Ok(a) => match reading(*rhs, p) {
                Err(error) => Err(error),
                Ok(b) => divided(a, b, p),
            },
        },
        Syntax::Add { lhs, rhs } => match reading(*lhs, p) {
            Err(error) => Err(error),
            Ok(a) => match reading(*rhs, p) {
                Err(error) => Err(error),
                Ok(b) => Ok(normal_form(a + b, p)),
            },
        },
        Syntax::Subtract { lhs, rhs } => match reading(*lhs, p) {
            Err(error) => Err(error),
            Ok(a) => match reading(*rhs, p) {
                Err(error) => Err(error),
                Ok(b) => Ok(normal_form(a + opposite(b), p)),
            },
        },
    }
}

/// The result of reading an expression that ends at the given position.
spec fn ending(r: Result<Terms, ParserFault>, end: int) -> Parsed {
    match r {
        Err(error) => Err(error),
        Ok(t) => Ok((t, end)),
    }
}

/// Expressions have at least one token, and start with one that is not a sign unless their outermost
/// operation is one.
pub proof fn lemma_written_nonempty(e: Syntax)
    ensures
        written(e).len() > 0,
    decreases e,
{
    match e {
        Syntax::Power { lhs, rhs } => lemma_written_nonempty(*lhs),
        Syntax::Multiply { lhs, rhs } => lemma_written_nonempty(*lhs),
        Syntax::Divide { lhs, rhs } => lemma_written_nonempty(*lhs),
        Syntax::Add { lhs, rhs } => lemma_written_nonempty(*lhs),
        Syntax::Subtract { lhs, rhs } => lemma_written_nonempty(*lhs),
        _ => {},
    }
}

/// One token that stands at a position.
proof fn lemma_stand_head(toks: Seq<Lexeme>, pos: int, x: Lexeme, rest: Seq<Lexeme>)
    requires
        stand_at(toks, pos, seq![x] + rest),
    ensures
        0 <= pos < toks.len(),
        toks[pos] == x,
        stand_at(toks, pos + 1, rest),
{
    lemma_stand_split(toks, pos, seq![x], rest);
    assert(seq![x][0] == x);
    assert(toks[pos + 0] == seq![x][0]);
}

/// Reading what stands in the brackets of a variable.
proof fn lemma_reads_column(
    column: Syntax,
    rest: Seq<Lexeme>,
    toks: Seq<Lexeme>,
    pos: int,
    p: int,
)
    requires
        p > 0,
        well_grouped(column),
        stand_at(toks, pos, seq![Lexeme::LeftBracket] + (written(column) + rest)),
        rest.len() > 0,
        rest[0] == Lexeme::Comma || rest[0] == Lexeme::RightBracket,
    ensures
        variable_at(toks, pos, p) == match reading(column, p) {
            Err(error) => Err(error),
            Ok(t) => match constant_of(t) {
                None => Err(ParserFault::ColumnIndexNotConstant(expression_text(t, p))),
                Some(value) => {
                    let column_index = signed_value(value, p);
                    if !(isize::MIN <= column_index <= isize::MAX) {
                        Err(ParserFault::OutOfRange(range_fault(value, p)))
                    } else if column_index < 0 {
                        Err(ParserFault::NegativeColumnIndex(column_index))
                    } else {
                        match rotation_at(toks, pos + 1 + written(column).len(), p) {
                            Err(error) => Err(error),
                            Ok((rotation, next)) => match expect(
                                toks,
                                next,
                                Lexeme::RightBracket,
                            ) {
                                Err(error) => Err(error),
                                Ok(end) => Ok(
                                    (
                                        var_terms(
                                            Variable {
                                                column_index: column_index as usize,
                                                rotation: rotation as isize,
                                            },
                                        ),
                                        end,
                                    ),
                                ),
                            },
                        }
                    }
                },
            },
        },
    decreases written(column).len() + 1, 0int,
{
    lemma_stand_head(toks, pos, Lexeme::LeftBracket, written(column) + rest);
    lemma_stand_split(toks, pos + 1, written(column), rest);
    let end = pos + 1 + written(column).len();
    assert(toks[end + 0] == rest[0]);
    assert(ends_sum(toks, end));
    lemma_reads_sum(column, toks, pos + 1, p);
    match reading(column, p) {
        Err(_) => {},
        Ok(t) => {
            assert(sum_rest(t, toks, end, p) == Ok::<(Terms, int), ParserFault>((t, end)));
        },
    }
}

/// Reading a variable without a rotation.
proof fn lemma_reads_variable(
    e: Syntax,
    column: Syntax,
    toks: Seq<Lexeme>,
    pos: int,
    p: int,
)
    requires
        p > 0,
        well_grouped(e),
        e == (Syntax::Variable { column: Box::new(column) }),
        stand_at(toks, pos, written(e)),
    ensures
        leaf_at(toks, pos, p) == ending(reading(e, p), pos + written(e).len()),
        0 <= pos < toks.len(),
        toks[pos] != Lexeme::Plus,
        toks[pos] != Lexeme::Minus,
    decreases written(e).len(), 0int,
{
    let rest = seq![Lexeme::RightBracket];
    let tail = seq![Lexeme::LeftBracket] + (written(column) + rest);
    assert(written(e) =~= seq![Lexeme::Identifier("var"@)] + tail);
    lemma_stand_head(toks, pos, Lexeme::Identifier("var"@), tail);
    lemma_reads_column(column, rest, toks, pos + 1, p);
    lemma_stand_head(toks, pos + 1, Lexeme::LeftBracket, written(column) + rest);
    lemma_stand_split(toks, pos + 2, written(column), rest);
    let end = pos + 2 + written(column).len();
    assert(toks[end + 0] == rest[0]);
    assert(rotation_at(toks, end, p) == Ok::<(int, int), ParserFault>((0, end)));
}

/// Reading a rotation.
proof fn lemma_reads_rotation(up: bool, distance: int, toks: Seq<Lexeme>, pos: int, p: int)
    requires
        stand_at(
            toks,
            pos,
            seq![
                Lexeme::Comma,
                if up {
                    Lexeme::Minus
                } else {
                    Lexeme::Plus
                },
                Lexeme::Number10(distance),
                Lexeme::RightBracket,
            ],
        ),
    ensures
        rotation_at(toks, pos, p) == match rotation_of(up, distance, p) {
            Err(error) => Err::<(int, int), ParserFault>(error),
            Ok(rotation) => Ok((rotation, pos + 3)),
        },
        expect(toks, pos + 3, Lexeme::RightBracket) == Ok::<int, ParserFault>(pos + 4),
{
    let rest = seq![
        Lexeme::Comma,
        if up {
            Lexeme::Minus
        } else {
            Lexeme::Plus
        },
        Lexeme::Number10(distance),
        Lexeme::RightBracket,
    ];
    assert(toks[pos + 0] == rest[0]);
    assert(toks[pos + 1] == rest[1]);
    assert(toks[pos + 2] == rest[2]);
    assert(toks[pos + 3] == rest[3]);
}

/// Reading a variable with a rotation.
#[verifier::rlimit(60)]
proof fn lemma_reads_rotated(
    e: Syntax,
    column: Syntax,
    up: bool,
    distance: int,
    toks: Seq<Lexeme>,
    pos: int,
    p: int,
)
    requires
        p > 0,
        well_grouped(e),
        e == (Syntax::Rotated { column: Box::new(column), up, distance }),
        stand_at(toks, pos, written(e)),
    ensures
        leaf_at(toks, pos, p) == ending(reading(e, p), pos + written(e).len()),
        0 <= pos < toks.len(),
        toks[pos] != Lexeme::Plus,
        toks[pos] != Lexeme::Minus,
    decreases written(e).len(), 0int,
{
    let sign = if up {
        Lexeme::Minus
    } else {
        Lexeme::Plus
    };
    let rest = seq![
        Lexeme::Comma,
        sign,
        Lexeme::Number10(distance),
        Lexeme::RightBracket,
    ];
    let tail = seq![Lexeme::LeftBracket] + (written(column) + rest);
    assert(written(e) =~= seq![Lexeme::Identifier("var"@)] + tail);
    lemma_stand_head(toks, pos, Lexeme::Identifier("var"@), tail);
    lemma_reads_column(column, rest, toks, pos + 1, p);
    lemma_stand_head(toks, pos + 1, Lexeme::LeftBracket, written(column) + rest);
    lemma_stand_split(toks, pos + 2, written(column), rest);
    let end = pos + 2 + written(column).len();
    lemma_reads_rotation(up, distance, toks, end, p);
}

/// Reading an expression in brackets.
proof fn lemma_reads_brackets(
    e: Syntax,
    inner: Syntax,
    toks: Seq<Lexeme>,
    pos: int,
    p: int,
)
    requires
        p > 0,
        well_grouped(e),
        e == (Syntax::Brackets { inner: Box::new(inner) }),
        stand_at(toks, pos, written(e)),
    ensures
        leaf_at(toks, pos, p) == ending(reading(e, p), pos + written(e).len()),
        0 <= pos < toks.len(),
        toks[pos] != Lexeme::Plus,
        toks[pos] != Lexeme::Minus,
    decreases written(e).len(), 0int,
{
    let rest = seq![Lexeme::RightBracket];
    lemma_stand_head(toks, pos, Lexeme::LeftBracket, written(inner) + rest);
    lemma_stand_split(toks, pos + 1, written(inner), rest);
    let end = pos + 1 + written(inner).len();
    assert(toks[end + 0] == rest[0]);
    assert(ends_sum(toks, end));
    lemma_reads_sum(inner, toks, pos + 1, p);
    match reading(inner, p) {
        Err(_) => {},
        Ok(t) => {
            assert(sum_rest(t, toks, end, p) == Ok::<(Terms, int), ParserFault>((t, end)));
        },
    }
}

/// Reading a number, a variable or an expression in brackets.
proof fn lemma_reads_leaf(e: Syntax, toks: Seq<Lexeme>, pos: int, p: int)
    requires
        p > 0,
        well_grouped(e),
        looseness(e) == 0,
        stand_at(toks, pos, written(e)),
    ensures
        leaf_at(toks, pos, p) == ending(reading(e, p), pos + written(e).len()),
        unary_at(toks, pos, p) == leaf_at(toks, pos, p),
    decreases written(e).len(), 1int,
{
    match e {
        Syntax::Number { lexeme, value } => {
            assert(written(e)[0] == lexeme);
            assert(toks[pos + 0] == written(e)[0]);
        },
        Syntax::Variable { column } => {
            lemma_reads_variable(e, *column, toks, pos, p);
        },
        Syntax::Rotated { column, up, distance } => {
            lemma_reads_rotated(e, *column, up, distance, toks, pos, p);
        },
        Syntax::Brackets { inner } => {
            lemma_reads_brackets(e, *inner, toks, pos, p);
        },
        _ => {},
    }
}

/// Reading an expression with signs in front of it.
proof fn lemma_reads_unary(e: Syntax, toks: Seq<Lexeme>, pos: int, p: int)
    requires
        p > 0,
        well_grouped(e),
        looseness(e) <= 1,
        stand_at(toks, pos, written(e)),
    ensures
        unary_at(toks, pos, p) == ending(reading(e, p), pos + written(e).len()),
    decreases written(e).len(), 2int,
{
    match e {
        Syntax::Plus { inner } => {
            lemma_stand_head(toks, pos, Lexeme::Plus, written(*inner));
            lemma_reads_unary(*inner, toks, pos + 1, p);
        },
        Syntax::Minus { inner } => {
            lemma_stand_head(toks, pos, Lexeme::Minus, written(*inner));
            lemma_reads_unary(*inner, toks, pos + 1, p);
        },
        _ => {
            lemma_reads_leaf(e, toks, pos, p);
        },
    }
}

/// Reading the exponent of a power.
proof fn lemma_reads_exponent(
    a: Terms,
    b: Terms,
    toks: Seq<Lexeme>,
    pos: int,
    end: int,
    p: int,
)
    requires
        0 <= pos < end <= toks.len(),
        toks[pos] == Lexeme::Power,
        unary_at(toks, pos + 1, p) == Ok::<(Terms, int), ParserFault>((b, end)),
    ensures
        power_rest(a, toks, pos, p) == match power_of(a, b, p) {
            Err(error) => Err(error),
            Ok(t) => power_rest(t, toks, end, p),
        },
{
    assert(exponent_at(toks, pos + 1, p) == match constant_of(b) {
        None => Err::<(int, int), ParserFault>(ParserFault::ExponentNotConstant),
        Some(value) => if isize::MIN <= signed_value(value, p) <= isize::MAX {
            Ok((signed_value(value, p), end))
        } else {
            Err(ParserFault::OutOfRange(range_fault(value, p)))
        },
    });
}

/// Reading a power.
proof fn lemma_reads_power(e: Syntax, toks: Seq<Lexeme>, pos: int, p: int)
    requires
        p > 0,
        well_grouped(e),
        looseness(e) <= 2,
        stand_at(toks, pos, written(e)),
    ensures
        power_at(toks, pos, p) == match reading(e, p) {
            Err(error) => Err(error),
            Ok(t) => power_rest(t, toks, pos + written(e).len(), p),
        },
    decreases written(e).len(), 3int,
{
    lemma_written_nonempty(e);
    match e {
        Syntax::Power { lhs, rhs } => {
            lemma_stand_split(toks, pos, written(*lhs), seq![Lexeme::Power] + written(*rhs));
            let mid = pos + written(*lhs).len();
            lemma_stand_head(toks, mid, Lexeme::Power, written(*rhs));
            lemma_written_nonempty(*lhs);
            lemma_written_nonempty(*rhs);
            let end = mid + 1 + written(*rhs).len();
            assert(pos + written(e).len() == end);
            lemma_reads_power(*lhs, toks, pos, p);
            lemma_reads_unary(*rhs, toks, mid + 1, p);
            match reading(*lhs, p) {
                Err(_) => {},
                Ok(a) => match reading(*rhs, p) {
                    Err(error) => {
                        assert(exponent_at(toks, mid + 1, p) == Err::<(int, int), ParserFault>(
                            error,
                        ));
                    },
                    Ok(b) => {
                        lemma_reads_exponent(a, b, toks, mid, end, p);
                    },
                },
            }
        },
        _ => {
            lemma_reads_unary(e, toks, pos, p);
        },
    }
}

/// Reading a product or a quotient.
#[verifier::rlimit(60)]
proof fn lemma_reads_product(e: Syntax, toks: Seq<Lexeme>, pos: int, p: int)
    requires
        p > 0,
        well_grouped(e),
        looseness(e) <= 3,
        stand_at(toks, pos, written(e)),
        ends_power(toks, pos + written(e).len()),
    ensures
        product_at(toks, pos, p) == match reading(e, p) {
            Err(error) => Err(error),
            Ok(t) => product_rest(t, toks, pos + written(e).len(), p),
        },
    decreases written(e).len(), 5int,
{
    lemma_written_nonempty(e);
    let end = pos + written(e).len();
    match e {
        Syntax::Multiply { lhs, rhs } => {
            lemma_reads_factor(*lhs, Lexeme::Multiply, *rhs, toks, pos, p);
        },
        Syntax::Divide { lhs, rhs } => {
            lemma_reads_factor(*lhs, Lexeme::Divide, *rhs, toks, pos, p);
        },
        _ => {
            lemma_reads_power(e, toks, pos, p);
            match reading(e, p) {
                Err(_) => {},
                Ok(t) => {
                    assert(power_rest(t, toks, end, p) == Ok::<(Terms, int), ParserFault>((t, end)));
                },
            }
        },
    }
}

/// Reading a product or quotient of two expressions.
proof fn lemma_reads_factor(
    lhs: Syntax,
    operator: Lexeme,
    rhs: Syntax,
    toks: Seq<Lexeme>,
    pos: int,
    p: int,
)
    requires
        p > 0,
        operator == Lexeme::Multiply || operator == Lexeme::Divide,
        well_grouped(lhs),
        well_grouped(rhs),
        looseness(lhs) <= 3,
        looseness(rhs) <= 2,
        stand_at(toks, pos, written(lhs) + (seq![operator] + written(rhs))),
        ends_power(toks, pos + written(lhs).len() + 1 + written(rhs).len()),
    ensures
        product_at(toks, pos, p) == match reading(lhs, p) {
            Err(error) => Err(error),
            Ok(a) => match reading(rhs, p) {
                Err(error) => Err(error),
                Ok(b) => match if operator == Lexeme::Multiply {
                    multiplied(a, b, p)
                } else {
                    divided(a, b, p)
                } {
                    Err(error) => Err(error),
                    Ok(t) => product_rest(
                        t,
                        toks,
                        pos + written(lhs).len() + 1 + written(rhs).len(),
                        p,
                    ),
                },
            },
        },
    decreases written(lhs).len() + 1 + written(rhs).len(), 4int,
{
    lemma_stand_split(toks, pos, written(lhs), seq![operator] + written(rhs));
    let mid = pos + written(lhs).len();
    let end = mid + 1 + written(rhs).len();
    lemma_stand_head(toks, mid, operator, written(rhs));
    lemma_written_nonempty(rhs);
    lemma_written_nonempty(lhs);
    lemma_reads_product(lhs, toks, pos, p);
    match reading(lhs, p) {
        Err(_) => {},
        Ok(a) => {
            lemma_reads_power(rhs, toks, mid + 1, p);
            match reading(rhs, p) {
                Err(_) => {},
                Ok(b) => {
                    assert(power_rest(b, toks, end, p) == Ok::<(Terms, int), ParserFault>((b, end)));
                },
            }
        },
    }
}

/// Reading a sum or a difference.
#[verifier::rlimit(60)]
pub proof fn lemma_reads_sum(e: Syntax, toks: Seq<Lexeme>, pos: int, p: int)
    requires
        p > 0,
        well_grouped(e),
        stand_at(toks, pos, written(e)),
        ends_product(toks, pos + written(e).len()),
    ensures
        sum_at(toks, pos, p) == match reading(e, p) {
            Err(error) => Err(error),
            Ok(t) => sum_rest(t, toks, pos + written(e).len(), p),
        },
    decreases written(e).len(), 7int,
{
    lemma_written_nonempty(e);
    let end = pos + written(e).len();
    match e {
        Syntax::Add { lhs, rhs } => {
            lemma_reads_summand(*lhs, Lexeme::Plus, *rhs, toks, pos, p);
        },
        Syntax::Subtract { lhs, rhs } => {
            lemma_reads_summand(*lhs, Lexeme::Minus, *rhs, toks, pos, p);
        },
        _ => {
            lemma_reads_product(e, toks, pos, p);
            match reading(e, p) {
                Err(_) => {},
                Ok(t) => {
                    assert(product_rest(t, toks, end, p) == Ok::<(Terms, int), ParserFault>(
                        (t, end),
                    ));
                },
            }
        },
    }
}

/// Reading a sum or difference of two expressions.
proof fn lemma_reads_summand(
    lhs: Syntax,
    operator: Lexeme,
    rhs: Syntax,
    toks: Seq<Lexeme>,
    pos: int,
    p: int,
)
    requires
        p > 0,
        operator == Lexeme::Plus || operator == Lexeme::Minus,
        well_grouped(lhs),
        well_grouped(rhs),
        looseness(rhs) <= 3,
        stand_at(toks, pos, written(lhs) + (seq![operator] + written(rhs))),
        ends_product(toks, pos + written(lhs).len() + 1 + written(rhs).len()),
    ensures
        sum_at(toks, pos, p) == match reading(lhs, p) {
            Err(error) => Err(error),
            Ok(a) => match reading(rhs, p) {
                Err(error) => Err(error),
                Ok(b) => sum_rest(
                    if operator == Lexeme::Plus {
                        normal_form(a + b, p)
                    } else {
                        normal_form(a + opposite(b), p)
                    },
                    toks,
                    pos + written(lhs).len() + 1 + written(rhs).len(),
                    p,
                ),
            },
        },
    decreases written(lhs).len() + 1 + written(rhs).len(), 6int,
{
    lemma_stand_split(toks, pos, written(lhs), seq![operator] + written(rhs));
    let mid = pos + written(lhs).len();
    let end = mid + 1 + written(rhs).len();
    lemma_stand_head(toks, mid, operator, written(rhs));
    lemma_written_nonempty(rhs);
    lemma_written_nonempty(lhs);
    lemma_reads_sum(lhs, toks, pos, p);
    match reading(lhs, p) {
        Err(_) => {},
        Ok(a) => {
            lemma_reads_product(rhs, toks, mid + 1, p);
            match reading(rhs, p) {
                Err(_) => {},
                Ok(b) => {
                    assert(product_rest(b, toks, end, p) == Ok::<(Terms, int), ParserFault>(
                        (b, end),
                    ));
                },
            }
        },
    }
}

/// The value of an expression under an assignment of residues modulo `p` to the variables, up to
/// multiples of `p`.
pub open spec fn meaning(e: Syntax, s: spec_fn(Variable) -> int, p: int) -> int
    decreases e,
{
    match e {
        Syntax::Number { lexeme, value } => value,
        Syntax::Variable { column } => s(
            Variable {
                column_index: signed_value(meaning(*column, s, p) % p, p) as usize,
                rotation: 0,
            },
        ),
        Syntax::Rotated { column, up, distance } => s(
            Variable {
                column_index: signed_value(meaning(*column, s, p) % p, p) as usize,
                rotation: if up {
                    (-distance) as isize
                } else {
                    distance as isize
                },
            },
        ),
        Syntax::Brackets { inner } => meaning(*inner, s, p),
        Syntax::Plus { inner } => meaning(*inner, s, p),
        Syntax::Minus { inner } => -meaning(*inner, s, p),
        Syntax::Power { lhs, rhs } => mod_pow(
            meaning(*lhs, s, p),
            signed_value(meaning(*rhs, s, p) % p, p),
            p,
        ),
        Syntax::Multiply { lhs, rhs } => meaning(*lhs, s, p) * meaning(*rhs, s, p),
        Syntax::Divide { lhs, rhs } => meaning(*lhs, s, p) * inverse(meaning(*rhs, s, p), p),
        Syntax::Add { lhs, rhs } => meaning(*lhs, s, p) + meaning(*rhs, s, p),
        Syntax::Subtract { lhs, rhs } => meaning(*lhs, s, p) - meaning(*rhs, s, p),
    }
}

/// The value of an expression is defined under an assignment: what it divides by, and what it raises
/// to a negative power, is invertible.
pub open spec fn meaningful(e: Syntax, s: spec_fn(Variable) -> int, p: int) -> bool
    decreases e,
{
    match e {
        Syntax::Number { lexeme, value } => true,
        Syntax::Variable { column } => meaningful(*column, s, p),
        Syntax::Rotated { column, up, distance } => meaningful(*column, s, p),
        Syntax::Brackets { inner } => meaningful(*inner, s, p),
        Syntax::Plus { inner } => meaningful(*inner, s, p),
        Syntax::Minus { inner } => meaningful(*inner, s, p),
        Syntax::Power { lhs, rhs } => meaningful(*lhs, s, p) && meaningful(*rhs, s, p) && (
        signed_value(meaning(*rhs, s, p) % p, p) >= 0 || invertible(meaning(*lhs, s, p), p)),
        Syntax::Multiply { lhs, rhs } => meaningful(*lhs, s, p) && meaningful(*rhs, s, p),
        Syntax::Divide { lhs, rhs } => meaningful(*lhs, s, p) && meaningful(*rhs, s, p)
            && invertible(meaning(*rhs, s, p), p),
        Syntax::Add { lhs, rhs } => meaningful(*lhs, s, p) && meaningful(*rhs, s, p),
        Syntax::Subtract { lhs, rhs } => meaningful(*lhs, s, p) && meaningful(*rhs, s, p),
    }
}

/// The value of a constant is the constant.
pub proof fn law_constant_value(value: int, s: spec_fn(Variable) -> int, p: int)
    requires
        0 <= value < p,
    ensures
        terms_value(const_terms(value), s, p) == value,
        terms_wf(const_terms(value), p),
        terms_defined(const_terms(value), s, p),
        constant_of(const_terms(value)) == Some(value),
{
    let t = const_terms(value);
    if value != 0 {
        assert(t.drop_last() =~= seq![]);
        reveal_with_fuel(weighted_sum, 2);
    }
}

/// The value of a variable is what is assigned to it.
pub proof fn law_variable_value(v: Variable, s: spec_fn(Variable) -> int, p: int)
    requires
        p > 1,
    ensures
        terms_value(var_terms(v), s, p) % p == s(v) % p,
        terms_wf(var_terms(v), p),
        terms_defined(var_terms(v), s, p),
{
    let t = var_terms(v);
    let m: Mono = seq![(v, 1int)];
    assert(t.drop_last() =~= seq![]);
    assert(m.drop_last() =~= Seq::<(Variable, int)>::empty());
    reveal_with_fuel(weighted_sum, 2);
    reveal_with_fuel(mono_value, 2);
    lemma_pow1(s(v));
    lemma_mod_twice(s(v), p);
    assert(mono_value(m, s, p) == s(v) % p);
}

/// An expression without variables has the same value under every assignment.
pub proof fn lemma_constant(t: Terms, value: int, s: spec_fn(Variable) -> int, p: int)
    requires
        terms_wf(t, p),
        p > 1,
        constant_of(t) == Some(value),
    ensures
        0 <= value < p,
        terms_value(t, s, p) == value,
{
    if t.len() == 0 {
    } else {
        assert(t[0].1 == value);
        assert(t.drop_last() =~= seq![]);
        reveal_with_fuel(weighted_sum, 2);
        assert(mono_value(t[0].0, s, p) == 1);
    }
}

/// Where terms are defined, their normal form is defined and has the same value.
pub proof fn lemma_normal_value(t: Terms, s: spec_fn(Variable) -> int, p: int)
    requires
        p > 1,
        monos_wf(t),
        terms_defined(t, s, p),
    ensures
        terms_wf(normal_form(t, p), p),
        terms_defined(normal_form(t, p), s, p),
        terms_value(normal_form(t, p), s, p) % p == terms_value(t, s, p) % p,
        is_normal_form(normal_form(t, p), t, p),
{
    let r = normal_form(t, p);
    law_normal_form_exists(t, p);
    lemma_normal_form_same(r, t, p);
    lemma_value_same_terms(r, t, s, p);
    lemma_small(0, p);
    assert forall|i: int| 0 <= i < r.len() implies mono_defined((#[trigger] r[i]).0, s, p) by {
        let m = r[i].0;
        lemma_coeff_at(r, i, p);
        if forall|j: int| 0 <= j < t.len() ==> (#[trigger] t[j]).0 != m {
            lemma_coeff_absent(t, m);
        }
        let j = choose|j: int| 0 <= j < t.len() && (#[trigger] t[j]).0 == m;
        assert(mono_defined(t[j].0, s, p));
    }
}

/// The value of terms with opposite coefficients.
pub proof fn lemma_opposite_terms(t: Terms, s: spec_fn(Variable) -> int, p: int)
    requires
        monos_wf(t),
        terms_defined(t, s, p),
    ensures
        monos_wf(opposite(t)),
        terms_defined(opposite(t), s, p),
        terms_value(opposite(t), s, p) == -terms_value(t, s, p),
    decreases t.len(),
{
    let r = opposite(t);
    assert forall|i: int| 0 <= i < r.len() implies mono_wf((#[trigger] r[i]).0) && mono_defined(
        r[i].0,
        s,
        p,
    ) by {
        assert(mono_wf(t[i].0) && mono_defined(t[i].0, s, p));
    }
    if t.len() > 0 {
        let front = t.drop_last();
        assert forall|i: int| 0 <= i < front.len() implies mono_wf((#[trigger] front[i]).0)
            && mono_defined(front[i].0, s, p) by {
            assert(front[i] == t[i]);
        }
        lemma_opposite_terms(front, s, p);
        assert(r.drop_last() =~= opposite(front));
        let (c, w) = (t.last().1, mono_value(t.last().0, s, p));
        assert((-c) * w == -(c * w)) by (nonlinear_arith);
    }
}

/// The terms of two expressions together.
pub proof fn lemma_concat_terms(a: Terms, b: Terms, s: spec_fn(Variable) -> int, p: int)
    requires
        monos_wf(a),
        monos_wf(b),
        terms_defined(a, s, p),
        terms_defined(b, s, p),
    ensures
        monos_wf(a + b),
        terms_defined(a + b, s, p),
        terms_value(a + b, s, p) == terms_value(a, s, p) + terms_value(b, s, p),
{
    let r = a + b;
    lemma_value_concat(a, b, s, p);
    assert forall|i: int| 0 <= i < r.len() implies mono_wf((#[trigger] r[i]).0) && mono_defined(
        r[i].0,
        s,
        p,
    ) by {
        if i < a.len() {
            assert(r[i] == a[i]);
        } else {
            assert(r[i] == b[i - a.len()]);
        }
    }
}

/// A factor of an invertible product is invertible.
proof fn lemma_invertible_factor(a: int, b: int, p: int)
    requires
        p > 1,
        invertible(a * b, p),
    ensures
        invertible(a, p),
        invertible(b, p),
{
    let r = inverse(a * b, p);
    assert(is_inverse(a * b, r, p));
    assert((a * b) * r == a * (b * r)) by (nonlinear_arith);
    assert((a * b) * r == b * (a * r)) by (nonlinear_arith);
    lemma_mod_mul(a, b * r, p);
    lemma_mod_mul(b, a * r, p);
    assert(is_inverse(a, (b * r) % p, p));
    assert(is_inverse(b, (a * r) % p, p));
}

/// Being invertible only depends on the residue.
proof fn lemma_invertible_residue(a: int, b: int, p: int)
    requires
        p > 1,
        a % p == b % p,
    ensures
        invertible(a, p) <==> invertible(b, p),
        invertible(a, p) ==> inverse(a, p) == inverse(b, p),
{
    assert forall|r: int| #[trigger] is_inverse(a, r, p) <==> is_inverse(b, r, p) by {
        lemma_cong_mul(a, b, r, r, p);
    }
    if invertible(a, p) {
        assert(is_inverse(a, inverse(a, p), p));
        lemma_inverse_unique(b, inverse(a, p), p);
    }
    if invertible(b, p) {
        assert(is_inverse(b, inverse(b, p), p));
        assert(is_inverse(a, inverse(b, p), p));
    }
}

/// The variables of a monomial whose value is invertible are invertible.
proof fn lemma_invertible_variables(m: Mono, s: spec_fn(Variable) -> int, p: int)
    requires
        p > 1,
        mono_wf(m),
        mono_defined(m, s, p),
        invertible(mono_value(m, s, p), p),
    ensures
        forall|i: int| 0 <= i < m.len() ==> invertible(s((#[trigger] m[i]).0), p),
    decreases m.len(),
{
    if m.len() > 0 {
        let front = m.drop_last();
        let (v, e) = m.last();
        assert(m[m.len() - 1] == m.last());
        let x = s(v);
        lemma_invertible_factor(mono_value(front, s, p), mod_pow(x, e, p), p);
        if e > 0 {
            let k = (e - 1) as nat;
            lemma_pow_adds(x, 1, k);
            lemma_pow1(x);
            lemma_mod_twice(pow(x, e as nat), p);
            lemma_invertible_residue(mod_pow(x, e, p), x * pow(x, k), p);
            lemma_invertible_factor(x, pow(x, k), p);
        }
        assert forall|i: int, j: int| 0 <= i < j < front.len() implies var_less(
            (#[trigger] front[i]).0,
            (#[trigger] front[j]).0,
        ) by {
            assert(var_less(m[i].0, m[j].0));
        }
        assert forall|i: int| 0 <= i < front.len() implies (#[trigger] front[i]).1 != 0 && (
        front[i].1 >= 0 || invertible(s(front[i].0), p)) by {
            assert(front[i] == m[i]);
        }
        lemma_invertible_variables(front, s, p);
        assert forall|i: int| 0 <= i < m.len() implies invertible(s((#[trigger] m[i]).0), p) by {
            if i < m.len() - 1 {
                assert(front[i] == m[i]);
            }
        }
    }
}

/// The value of a single term.
proof fn lemma_single_value(m: Mono, c: int, s: spec_fn(Variable) -> int, p: int)
    ensures
        terms_value(seq![(m, c)], s, p) == c * mono_value(m, s, p),
{
    assert(seq![(m, c)].drop_last() =~= Seq::<(Mono, int)>::empty());
    reveal_with_fuel(weighted_sum, 2);
}

/// Numbers whose products with the same number are 1 are congruent.
proof fn lemma_same_inverse(x: int, a: int, b: int, p: int)
    requires
        p > 1,
        (x * a) % p == 1,
        (x * b) % p == 1,
    ensures
        a % p == b % p,
{
    assert(a * (x * b) == b * (x * a)) by (nonlinear_arith);
    lemma_mod_mul(a, x * b, p);
    lemma_mod_mul(b, x * a, p);
}

/// The value of a negative power of a single term.
#[verifier::rlimit(40)]
pub proof fn lemma_negative_power(t: Terms, e: int, s: spec_fn(Variable) -> int, p: int)
    requires
        p > 1,
        terms_wf(t, p),
        t.len() == 1,
        e < 0,
        terms_defined(t, s, p),
        invertible(terms_value(t, s, p), p),
    ensures
        monos_wf(signed_power_terms(t, e, p)),
        terms_defined(signed_power_terms(t, e, p), s, p),
        terms_value(signed_power_terms(t, e, p), s, p) % p == mod_pow(
            terms_value(t, s, p),
            e,
            p,
        ),
{
    let (m, c) = t[0];
    let n = (-e) as nat;
    assert(t =~= seq![(m, c)]);
    lemma_single_value(m, c, s, p);
    let x = terms_value(t, s, p);
    lemma_invertible_factor(c, mono_value(m, s, p), p);
    assert(mono_wf(m) && mono_defined(m, s, p));
    lemma_invertible_variables(m, s, p);
    let k = mono_pow(m, e);
    let d = mod_pow(c, e, p);
    let r = signed_power_terms(t, e, p);
    assert(r =~= seq![(k, d)]);
    lemma_mono_pow_wf(m, e);
    assert forall|i: int| 0 <= i < k.len() implies invertible(s((#[trigger] k[i]).0), p) by {
        assert(k[i].0 == m[i].0);
    }
    assert(mono_defined(k, s, p));
    assert(terms_defined(r, s, p));
    assert(monos_wf(r));
    // the product of the power and its inverse
    let q = power_terms(t, n);
    lemma_power_monos_wf(t, n);
    lemma_power_value(t, n, s, p);
    lemma_power_single(m, c, n);
    lemma_value_product(r, q, s, p);
    lemma_unit_product(m, c, e, s, p);
    let (y, z) = (terms_value(r, s, p), terms_value(q, s, p));
    assert((z * y) % p == 1) by {
        assert(y * z == z * y) by (nonlinear_arith);
    }
    lemma_cong_mul(z, pow(x, n), y, y, p);
    // the power of the inverse is an inverse too
    lemma_mod_pow_add(x, n as int, e, p);
    lemma_pow0(x);
    lemma_small(1, p);
    let w = mod_pow(x, e, p);
    lemma_mod_mul(pow(x, n), w, p);
    assert((pow(x, n) * w) % p == 1);
    lemma_same_inverse(pow(x, n), y, w, p);
    lemma_mod_twice(pow(inverse(x, p), n), p);
}

/// A power of a single term times the opposite power of it.
proof fn lemma_unit_product(m: Mono, c: int, e: int, s: spec_fn(Variable) -> int, p: int)
    requires
        p > 1,
        mono_wf(m),
        invertible(c, p),
        e < 0,
    ensures
        terms_value(
            product_terms(
                seq![(mono_pow(m, e), mod_pow(c, e, p))],
                power_terms(seq![(m, c)], (-e) as nat),
            ),
            s,
            p,
        ) % p == 1,
{
    let n = (-e) as nat;
    let (k, d) = (mono_pow(m, e), mod_pow(c, e, p));
    let (l, f) = (mono_pow(m, n as int), pow(c, n));
    let empty = Seq::<(Variable, int)>::empty();
    lemma_mono_pow_wf(m, e);
    lemma_mono_pow_wf(m, n as int);
    lemma_power_single(m, c, n);
    assert(mono_mul(k, l) == empty) by {
        lemma_mono_mul_wf(k, l);
        assert forall|v: Variable| exponent(mono_mul(k, l), v) == exponent(empty, v) by {
            lemma_mono_mul_exponent(k, l, v);
            lemma_mono_pow_exponent(m, e, v);
            lemma_mono_pow_exponent(m, n as int, v);
            let x = exponent(m, v);
            assert(x * e + x * (-e) == 0) by (nonlinear_arith);
        }
        lemma_mono_unique(mono_mul(k, l), empty);
    }
    let r: Terms = seq![(k, d)];
    let q: Terms = seq![(l, f)];
    assert(product_terms(r, q) =~= seq![(empty, d * f)]) by {
        assert(r.drop_last() =~= seq![]);
        reveal_with_fuel(product_terms, 2);
        assert(scale_terms(q, k, d) =~= seq![(mono_mul(k, l), d * f)]);
        assert(product_terms(r, q) =~= seq![] + scale_terms(q, k, d));
    }
    lemma_single_value(empty, d * f, s, p);
    assert((d * f) * 1 == d * f);
    lemma_mod_pow_add(c, e, n as int, p);
    lemma_pow0(c);
    lemma_small(1, p);
    lemma_mod_mul(d, f, p);
}

/// The value of what an expression is read as.
pub proof fn lemma_reading_value(e: Syntax, s: spec_fn(Variable) -> int, p: int)
    requires
        p > 1,
        well_grouped(e),
        reading(e, p) is Ok,
        meaningful(e, s, p),
    ensures
        terms_wf(reading(e, p)->Ok_0, p),
        terms_defined(reading(e, p)->Ok_0, s, p),
        terms_value(reading(e, p)->Ok_0, s, p) % p == meaning(e, s, p) % p,
    decreases e,
{
    match e {
        Syntax::Number { lexeme, value } => {
            law_constant_value(value, s, p);
        },
        Syntax::Variable { column } => {
            lemma_reading_value(*column, s, p);
            lemma_column_value(reading(*column, p)->Ok_0, *column, Ok(0), s, p);
        },
        Syntax::Rotated { column, up, distance } => {
            lemma_reading_value(*column, s, p);
            lemma_column_value(
                reading(*column, p)->Ok_0,
                *column,
                rotation_of(up, distance, p),
                s,
                p,
            );
        },
        Syntax::Brackets { inner } => {
            lemma_reading_value(*inner, s, p);
        },
        Syntax::Plus { inner } => {
            lemma_reading_value(*inner, s, p);
        },
        Syntax::Minus { inner } => {
            lemma_reading_value(*inner, s, p);
            let t = reading(*inner, p)->Ok_0;
            lemma_opposite_terms(t, s, p);
            lemma_normal_value(opposite(t), s, p);
            lemma_cong_sub(0, 0, terms_value(t, s, p), meaning(*inner, s, p), p);
        },
        Syntax::Power { lhs, rhs } => {
            lemma_reading_value(*lhs, s, p);
            lemma_reading_value(*rhs, s, p);
            lemma_power_meaning(
                reading(*lhs, p)->Ok_0,
                reading(*rhs, p)->Ok_0,
                meaning(*lhs, s, p),
                meaning(*rhs, s, p),
                s,
                p,
            );
        },
        Syntax::Multiply { lhs, rhs } => {
            lemma_reading_value(*lhs, s, p);
            lemma_reading_value(*rhs, s, p);
            let (a, b) = (reading(*lhs, p)->Ok_0, reading(*rhs, p)->Ok_0);
            lemma_product_monos_wf(a, b);
            lemma_product_defined(a, b, s, p);
            lemma_normal_value(product_terms(a, b), s, p);
            lemma_value_product(a, b, s, p);
            lemma_cong_mul(
                terms_value(a, s, p),
                meaning(*lhs, s, p),
                terms_value(b, s, p),
                meaning(*rhs, s, p),
                p,
            );
        },
        Syntax::Divide { lhs, rhs } => {
            lemma_reading_value(*lhs, s, p);
            lemma_reading_value(*rhs, s, p);
            lemma_quotient_meaning(
                reading(*lhs, p)->Ok_0,
                reading(*rhs, p)->Ok_0,
                meaning(*lhs, s, p),
                meaning(*rhs, s, p),
                s,
                p,
            );
        },
        Syntax::Add { lhs, rhs } => {
            lemma_reading_value(*lhs, s, p);
            lemma_reading_value(*rhs, s, p);
            let (a, b) = (reading(*lhs, p)->Ok_0, reading(*rhs, p)->Ok_0);
            lemma_concat_terms(a, b, s, p);
            lemma_normal_value(a + b, s, p);
            lemma_cong_add(
                terms_value(a, s, p),
                meaning(*lhs, s, p),
                terms_value(b, s, p),
                meaning(*rhs, s, p),
                p,
            );
        },
        Syntax::Subtract { lhs, rhs } => {
            lemma_reading_value(*lhs, s, p);
            lemma_reading_value(*rhs, s, p);
            let (a, b) = (reading(*lhs, p)->Ok_0, reading(*rhs, p)->Ok_0);
            lemma_opposite_terms(b, s, p);
            lemma_concat_terms(a, opposite(b), s, p);
            lemma_normal_value(a + opposite(b), s, p);
            lemma_cong_sub(
                terms_value(a, s, p),
                meaning(*lhs, s, p),
                terms_value(b, s, p),
                meaning(*rhs, s, p),
                p,
            );
        },
    }
}

/// The value of a variable whose column is an expression.
proof fn lemma_column_value(
    t: Terms,
    column: Syntax,
    rotation: Result<int, ParserFault>,
    s: spec_fn(Variable) -> int,
    p: int,
)
    requires
        p > 1,
        terms_wf(t, p),
        terms_value(t, s, p) % p == meaning(column, s, p) % p,
        column_terms(t, rotation, p) is Ok,
    ensures
        rotation is Ok,
        ({
            let r = column_terms(t, rotation, p)->Ok_0;
            let v = Variable {
                column_index: signed_value(meaning(column, s, p) % p, p) as usize,
                rotation: rotation->Ok_0 as isize,
            };
            terms_wf(r, p) && terms_defined(r, s, p) && terms_value(r, s, p) % p == s(v) % p
        }),
{
    let value = constant_of(t)->0;
    lemma_constant(t, value, s, p);
    lemma_small(value, p);
    law_variable_value(
        Variable {
            column_index: signed_value(value, p) as usize,
            rotation: rotation->Ok_0 as isize,
        },
        s,
        p,
    );
}

/// The value of a power.
pub proof fn lemma_power_meaning(
    a: Terms,
    b: Terms,
    x: int,
    y: int,
    s: spec_fn(Variable) -> int,
    p: int,
)
    requires
        p > 1,
        terms_wf(a, p),
        terms_wf(b, p),
        terms_defined(a, s, p),
        terms_value(a, s, p) % p == x % p,
        terms_value(b, s, p) % p == y % p,
        power_of(a, b, p) is Ok,
        signed_value(y % p, p) >= 0 || invertible(x, p),
    ensures
        terms_wf(power_of(a, b, p)->Ok_0, p),
        terms_defined(power_of(a, b, p)->Ok_0, s, p),
        terms_value(power_of(a, b, p)->Ok_0, s, p) % p == mod_pow(x, signed_value(y % p, p), p) % p,
{
    let value = constant_of(b)->0;
    lemma_constant(b, value, s, p);
    lemma_small(value, p);
    let e = signed_value(value, p);
    let u = terms_value(a, s, p);
    if e >= 0 {
        lemma_power_value(a, e as nat, s, p);
        lemma_power_monos_wf(a, e as nat);
        lemma_cong_pow(u, x, e as nat, p);
        lemma_mod_twice(pow(x, e as nat), p);
    } else {
        lemma_invertible_residue(u, x, p);
        lemma_negative_power(a, e, s, p);
        lemma_mod_twice(pow(inverse(x, p), (-e) as nat), p);
    }
    lemma_normal_value(signed_power_terms(a, e, p), s, p);
}

/// The value of a quotient.
pub proof fn lemma_quotient_meaning(
    a: Terms,
    b: Terms,
    x: int,
    y: int,
    s: spec_fn(Variable) -> int,
    p: int,
)
    requires
        p > 1,
        terms_wf(a, p),
        terms_wf(b, p),
        terms_defined(a, s, p),
        terms_defined(b, s, p),
        terms_value(a, s, p) % p == x % p,
        terms_value(b, s, p) % p == y % p,
        divided(a, b, p) is Ok,
        invertible(y, p),
    ensures
        terms_wf(divided(a, b, p)->Ok_0, p),
        terms_defined(divided(a, b, p)->Ok_0, s, p),
        terms_value(divided(a, b, p)->Ok_0, s, p) % p == (x * inverse(y, p)) % p,
{
    let (u, v) = (terms_value(a, s, p), terms_value(b, s, p));
    lemma_invertible_residue(v, y, p);
    lemma_negative_power(b, -1, s, p);
    let c = signed_power_terms(b, -1, p);
    let w = terms_value(c, s, p);
    lemma_product_monos_wf(a, c);
    lemma_product_defined(a, c, s, p);
    lemma_normal_value(product_terms(a, c), s, p);
    lemma_value_product(a, c, s, p);
    lemma_pow1(inverse(v, p));
    lemma_mod_twice(inverse(v, p), p);
    lemma_cong_mul(u, x, w, inverse(y, p), p);
}

/// What an expression is read as is in normal form.
pub proof fn lemma_reading_wf(e: Syntax, p: int)
    requires
        p > 1,
        well_grouped(e),
        reading(e, p) is Ok,
    ensures
        terms_wf(reading(e, p)->Ok_0, p),
    decreases e,
{
    let s = |v: Variable| 1int;
    match e {
        Syntax::Number { lexeme, value } => {
            law_constant_value(value, s, p);
        },
        Syntax::Variable { column } => {
            let t = reading(*column, p)->Ok_0;
            let v = Variable {
                column_index: signed_value(constant_of(t)->0, p) as usize,
                rotation: 0,
            };
            law_variable_value(v, s, p);
        },
        Syntax::Rotated { column, up, distance } => {
            let t = reading(*column, p)->Ok_0;
            let v = Variable {
                column_index: signed_value(constant_of(t)->0, p) as usize,
                rotation: rotation_of(up, distance, p)->Ok_0 as isize,
            };
            law_variable_value(v, s, p);
        },
        Syntax::Brackets { inner } => {
            lemma_reading_wf(*inner, p);
        },
        Syntax::Plus { inner } => {
            lemma_reading_wf(*inner, p);
        },
        Syntax::Minus { inner } => {
            lemma_reading_wf(*inner, p);
            let t = reading(*inner, p)->Ok_0;
            lemma_opposite_wf(t);
            law_normal_form_exists(opposite(t), p);
        },
        Syntax::Power { lhs, rhs } => {
            lemma_reading_wf(*lhs, p);
            let (a, b) = (reading(*lhs, p)->Ok_0, reading(*rhs, p)->Ok_0);
            lemma_signed_power_wf(a, signed_value(constant_of(b)->0, p), p);
            law_normal_form_exists(
                signed_power_terms(a, signed_value(constant_of(b)->0, p), p),
                p,
            );
        },
        Syntax::Multiply { lhs, rhs } => {
            lemma_reading_wf(*lhs, p);
            lemma_reading_wf(*rhs, p);
            let (a, b) = (reading(*lhs, p)->Ok_0, reading(*rhs, p)->Ok_0);
            lemma_product_monos_wf(a, b);
            law_normal_form_exists(product_terms(a, b), p);
        },
        Syntax::Divide { lhs, rhs } => {
            lemma_reading_wf(*lhs, p);
            lemma_reading_wf(*rhs, p);
            let (a, b) = (reading(*lhs, p)->Ok_0, reading(*rhs, p)->Ok_0);
            lemma_signed_power_wf(b, -1, p);
            lemma_product_monos_wf(a, signed_power_terms(b, -1, p));
            law_normal_form_exists(product_terms(a, signed_power_terms(b, -1, p)), p);
        },
        Syntax::Add { lhs, rhs } => {
            lemma_reading_wf(*lhs, p);
            lemma_reading_wf(*rhs, p);
            let (a, b) = (reading(*lhs, p)->Ok_0, reading(*rhs, p)->Ok_0);
            lemma_concat_wf(a, b);
            law_normal_form_exists(a + b, p);
        },
        Syntax::Subtract { lhs, rhs } => {
            lemma_reading_wf(*lhs, p);
            lemma_reading_wf(*rhs, p);
            let (a, b) = (reading(*lhs, p)->Ok_0, reading(*rhs, p)->Ok_0);
            lemma_opposite_wf(b);
            lemma_concat_wf(a, opposite(b));
            law_normal_form_exists(a + opposite(b), p);
        },
    }
}

/// The monomials of terms with opposite coefficients.
pub proof fn lemma_opposite_wf(t: Terms)
    requires
        monos_wf(t),
    ensures
        monos_wf(opposite(t)),
{
    assert forall|i: int| 0 <= i < opposite(t).len() implies mono_wf(
        (#[trigger] opposite(t)[i]).0,
    ) by {
        assert(mono_wf(t[i].0));
    }
}

/// The monomials of the terms of two expressions together.
pub proof fn lemma_concat_wf(a: Terms, b: Terms)
    requires
        monos_wf(a),
        monos_wf(b),
    ensures
        monos_wf(a + b),
{
    assert forall|i: int| 0 <= i < (a + b).len() implies mono_wf((#[trigger] (a + b)[i]).0) by {
        if i < a.len() {
            assert((a + b)[i] == a[i]);
        } else {
            assert((a + b)[i] == b[i - a.len()]);
        }
    }
}

/// The monomials of a power.
pub proof fn lemma_signed_power_wf(t: Terms, e: int, p: int)
    requires
        monos_wf(t),
        e >= 0 || t.len() == 1,
    ensures
        monos_wf(signed_power_terms(t, e, p)),
{
    if e >= 0 {
        lemma_power_monos_wf(t, e as nat);
    } else {
        assert(mono_wf(t[0].0));
        lemma_mono_pow_wf(t[0].0, e);
    }
}

} // verus!
