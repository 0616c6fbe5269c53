//! The syntax of constraint expressions.
use crate::expr::{
    const_terms, is_difference, is_normal_form, is_sum, power_fits, product_fits,
    signed_power_terms, var_terms, Constraint,
};
use crate::field::{field_text, Field};
use crate::lexer::{lexemes, scan, tokenize, Lexeme, LexerError, Token};
use crate::ops::division_fits;
use crate::terms::{
    coeff, lemma_coeff_concat, lemma_terms_unique, mono_wf, product_terms, Mono, Terms,
};
use crate::text::expression_text;
use crate::utils::{range_fault, scalar_to_isize, signed_value, RangeError, RangeFault};
use crate::variable::Variable;
use vstd::prelude::*;

verus! {

/// Why a list of tokens is not an expression.
#[derive(Debug, Clone, PartialEq, Eq)]
pub enum ParserError {
    /// The expression stops where more tokens are expected.
    UnexpectedEndOfInput,
    /// There is a token that is not expected.
    SyntaxError,
    /// An identifier is unknown.
    UnknownIdentifier { label: String },
    /// A number is not smaller than the order of the field.
    NumberTooLarge,
    /// A column index or an exponent is not in the range of [`isize`].
    OutOfRange { error: RangeError },
    /// A column index has variables.
    ColumnIndexNotConstant { expression: String },
    /// A column index is negative.
    NegativeColumnIndex { column_index: isize },
    /// A rotation is not in the range of [`isize`].
    RotationTooLarge { rotation: String },
    /// An exponent has variables.
    ExponentNotConstant,
    /// Sums and zero cannot be raised to a negative power.
    NegativePower { expression: String },
    /// Division by zero.
    DivisionByZero,
    /// Division by a sum.
    DivisionBySum,
    /// An exponent of the resulting expression is not in the range of [`isize`].
    ExponentOverflow,
}

/// What is wrong with a list of tokens that is not an expression.
pub ghost enum ParserFault {
    UnexpectedEndOfInput,
    SyntaxError,
    UnknownIdentifier(Seq<char>),
    NumberTooLarge,
    OutOfRange(RangeFault),
    ColumnIndexNotConstant(Seq<char>),
    NegativeColumnIndex(int),
    RotationTooLarge(Seq<char>),
    ExponentNotConstant,
    NegativePower(Seq<char>),
    DivisionByZero,
    DivisionBySum,
    ExponentOverflow,
}

impl View for ParserError {
    type V = ParserFault;

    open spec fn view(&self) -> ParserFault {
        match *self {
            ParserError::UnexpectedEndOfInput => ParserFault::UnexpectedEndOfInput,
            ParserError::SyntaxError => ParserFault::SyntaxError,
            ParserError::UnknownIdentifier { label } => ParserFault::UnknownIdentifier(label@),
            ParserError::NumberTooLarge => ParserFault::NumberTooLarge,
            ParserError::OutOfRange { error } => ParserFault::OutOfRange(error@),
            ParserError::ColumnIndexNotConstant { expression } =>
            ParserFault::ColumnIndexNotConstant(expression@),
            ParserError::NegativeColumnIndex { column_index } => ParserFault::NegativeColumnIndex(
                column_index as int,
            ),
            ParserError::RotationTooLarge { rotation } => ParserFault::RotationTooLarge(rotation@),
            ParserError::ExponentNotConstant => ParserFault::ExponentNotConstant,
            ParserError::NegativePower { expression } => ParserFault::NegativePower(expression@),
            ParserError::DivisionByZero => ParserFault::DivisionByZero,
            ParserError::DivisionBySum => ParserFault::DivisionBySum,
            ParserError::ExponentOverflow => ParserFault::ExponentOverflow,
        }
    }
}

/// The normal form of a sum of terms.
pub open spec fn normal_form(t: Terms, p: int) -> Terms {
    choose|r: Terms| is_normal_form(r, t, p)
}

/// The terms of `t` with opposite coefficients.
pub open spec fn opposite(t: Terms) -> Terms {
    Seq::new(t.len(), |i: int| (t[i].0, -t[i].1))
}

/// The value of a constant expression.
pub open spec fn constant_of(t: Terms) -> Option<int> {
    if t.len() == 0 {
        Some(0)
    } else if t.len() == 1 && t[0].0.len() == 0 {
        Some(t[0].1)
    } else {
        None
    }
}

/// The result of reading an expression: its terms and the position behind it.
pub type Parsed = Result<(Terms, int), ParserFault>;

/// The token at `pos`, which is expected there.
pub open spec fn expect(toks: Seq<Lexeme>, pos: int, lexeme: Lexeme) -> Result<int, ParserFault> {
    if !(0 <= pos < toks.len()) {
        Err(ParserFault::UnexpectedEndOfInput)
    } else if toks[pos] != lexeme {
        Err(ParserFault::SyntaxError)
    } else {
        Ok(pos + 1)
    }
}

/// Reads a rotation, if there is one.
pub open spec fn rotation_at(toks: Seq<Lexeme>, pos: int, p: int) -> Result<(int, int), ParserFault> {
    if !(0 <= pos < toks.len()) {
        Err(ParserFault::UnexpectedEndOfInput)
    } else if toks[pos] != Lexeme::Comma {
        Ok((0, pos))
    } else if !(pos + 1 < toks.len()) {
        Err(ParserFault::UnexpectedEndOfInput)
    } else if toks[pos + 1] != Lexeme::Plus && toks[pos + 1] != Lexeme::Minus {
        Err(ParserFault::SyntaxError)
    } else if !(pos + 2 < toks.len()) {
        Err(ParserFault::UnexpectedEndOfInput)
    } else {
        match toks[pos + 2] {
            Lexeme::Number10(value) => if value >= p {
                Err(ParserFault::NumberTooLarge)
            } else if value > (p - 1) / 2 || value > isize::MAX {
                Err(ParserFault::RotationTooLarge(field_text(value, p)))
            } else if toks[pos + 1] == Lexeme::Minus {
                Ok((-value, pos + 3))
            } else {
                Ok((value, pos + 3))
            },
            _ => Err(ParserFault::SyntaxError),
        }
    }
}

/// Reads the column index and the rotation of a variable, in brackets.
pub open spec fn variable_at(toks: Seq<Lexeme>, pos: int, p: int) -> Parsed
    decreases toks.len() - pos, 0int,
{
    match expect(toks, pos, Lexeme::LeftBracket) {
        Err(error) => Err(error),
        Ok(start) => match sum_at(toks, start, p) {
            Err(error) => Err(error),
            Ok((t, next)) => match constant_of(t) {
                None => Err(ParserFault::ColumnIndexNotConstant(expression_text(t, p))),
                Some(value) => {
                    let column = signed_value(value, p);
                    if !(isize::MIN <= column <= isize::MAX) {
                        Err(ParserFault::OutOfRange(range_fault(value, p)))
                    } else if column < 0 {
                        Err(ParserFault::NegativeColumnIndex(column))
                    } else {
                        match rotation_at(toks, next, p) {
                            Err(error) => Err(error),
                            Ok((rotation, next)) => match expect(
                                toks,
                                next,
                                Lexeme::RightBracket,
                            ) {
                                Err(error) => Err(error),
                                Ok(end) => Ok(
                                    (
                                        var_terms(
                                            Variable {
                                                column_index: column as usize,
                                                rotation: rotation as isize,
                                            },
                                        ),
                                        end,
                                    ),
                                ),
                            },
                        }
                    }
                },
            },
        },
    }
}

/// Reads a number, a variable or an expression in brackets.
pub open spec fn leaf_at(toks: Seq<Lexeme>, pos: int, p: int) -> Parsed
    decreases toks.len() - pos, 1int,
{
    if !(0 <= pos < toks.len()) {
        Err(ParserFault::UnexpectedEndOfInput)
    } else {
        match toks[pos] {
            Lexeme::Number2(value) => number_terms(value, pos, p),
            Lexeme::Number8(value) => number_terms(value, pos, p),
            Lexeme::Number10(value) => number_terms(value, pos, p),
            Lexeme::Number16(value) => number_terms(value, pos, p),
            Lexeme::Identifier(label) => if label == "var"@ {
                variable_at(toks, pos + 1, p)
            } else {
                Err(ParserFault::UnknownIdentifier(label))
            },
            Lexeme::LeftBracket => match sum_at(toks, pos + 1, p) {
                Err(error) => Err(error),
                Ok((t, next)) => match expect(toks, next, Lexeme::RightBracket) {
                    Err(error) => Err(error),
                    Ok(end) => Ok((t, end)),
                },
            },
            _ => Err(ParserFault::SyntaxError),
        }
    }
}

/// A number.
pub open spec fn number_terms(value: int, pos: int, p: int) -> Parsed {
    if value >= p {
        Err(ParserFault::NumberTooLarge)
    } else {
        Ok((const_terms(value), pos + 1))
    }
}

/// Reads a leaf with signs in front of it.
pub open spec fn unary_at(toks: Seq<Lexeme>, pos: int, p: int) -> Parsed
    decreases toks.len() - pos, 2int,
{
    if !(0 <= pos < toks.len()) {
        Err(ParserFault::UnexpectedEndOfInput)
    } else if toks[pos] == Lexeme::Plus {
        unary_at(toks, pos + 1, p)
    } else if toks[pos] == Lexeme::Minus {
        match unary_at(toks, pos + 1, p) {
            Err(error) => Err(error),
            Ok((t, next)) => Ok((normal_form(opposite(t), p), next)),
        }
    } else {
        leaf_at(toks, pos, p)
    }
}

/// Reads an exponent.
pub open spec fn exponent_at(toks: Seq<Lexeme>, pos: int, p: int) -> Result<(int, int), ParserFault>
    decreases toks.len() - pos, 3int,
{
    match unary_at(toks, pos, p) {
        Err(error) => Err(error),
        Ok((t, next)) => match constant_of(t) {
            None => Err(ParserFault::ExponentNotConstant),
            Some(value) => {
                let exponent = signed_value(value, p);
                if isize::MIN <= exponent <= isize::MAX {
                    Ok((exponent, next))
                } else {
                    Err(ParserFault::OutOfRange(range_fault(value, p)))
                }
            },
        },
    }
}

/// An expression raised to a power.
pub open spec fn raised(base: Terms, exponent: int, p: int) -> Result<Terms, ParserFault> {
    if exponent < 0 && base.len() != 1 {
        Err(ParserFault::NegativePower(expression_text(base, p)))
    } else if !power_fits(base, exponent) {
        Err(ParserFault::ExponentOverflow)
    } else {
        Ok(normal_form(signed_power_terms(base, exponent, p), p))
    }
}

/// Reads the powers that `base` is raised to.
pub open spec fn power_rest(base: Terms, toks: Seq<Lexeme>, pos: int, p: int) -> Parsed
    decreases toks.len() - pos, 4int,
{
    if !(0 <= pos < toks.len()) {
        Err(ParserFault::UnexpectedEndOfInput)
    } else if toks[pos] != Lexeme::Power {
        Ok((base, pos))
    } else {
        match exponent_at(toks, pos + 1, p) {
            Err(error) => Err(error),
            Ok((exponent, next)) => match raised(base, exponent, p) {
                Err(error) => Err(error),
                Ok(t) => if pos < next <= toks.len() {
                    power_rest(t, toks, next, p)
                } else {
                    Err(ParserFault::SyntaxError)
                },
            },
        }
    }
}

/// Reads an expression made of powers.
pub open spec fn power_at(toks: Seq<Lexeme>, pos: int, p: int) -> Parsed
    decreases toks.len() - pos, 5int,
{
    match unary_at(toks, pos, p) {
        Err(error) => Err(error),
        Ok((t, next)) => if pos < next <= toks.len() {
            power_rest(t, toks, next, p)
        } else {
            Err(ParserFault::SyntaxError)
        },
    }
}

/// A product.
pub open spec fn multiplied(a: Terms, b: Terms, p: int) -> Result<Terms, ParserFault> {
    if product_fits(a, b) {
        Ok(normal_form(product_terms(a, b), p))
    } else {
        Err(ParserFault::ExponentOverflow)
    }
}

/// A quotient.
pub open spec fn divided(a: Terms, b: Terms, p: int) -> Result<Terms, ParserFault> {
    if b.len() == 0 {
        Err(ParserFault::DivisionByZero)
    } else if b.len() >= 2 {
        Err(ParserFault::DivisionBySum)
    } else if division_fits(a, b, p) {
        Ok(normal_form(product_terms(a, signed_power_terms(b, -1, p)), p))
    } else {
        Err(ParserFault::ExponentOverflow)
    }
}

/// Reads what `operand` is multiplied with and divided by.
pub open spec fn product_rest(operand: Terms, toks: Seq<Lexeme>, pos: int, p: int) -> Parsed
    decreases toks.len() - pos, 6int,
{
    if !(0 <= pos < toks.len()) {
        Err(ParserFault::UnexpectedEndOfInput)
    } else if toks[pos] != Lexeme::Multiply && toks[pos] != Lexeme::Divide {
        Ok((operand, pos))
    } else {
        match power_at(toks, pos + 1, p) {
            Err(error) => Err(error),
            Ok((t, next)) => match if toks[pos] == Lexeme::Multiply {
                multiplied(operand, t, p)
            } else {
                divided(operand, t, p)
            } {
                Err(error) => Err(error),
                Ok(t) => if pos < next <= toks.len() {
                    product_rest(t, toks, next, p)
                } else {
                    Err(ParserFault::SyntaxError)
                },
            },
        }
    }
}

/// Reads an expression made of products and quotients.
pub open spec fn product_at(toks: Seq<Lexeme>, pos: int, p: int) -> Parsed
    decreases toks.len() - pos, 7int,
{
    match power_at(toks, pos, p) {
        Err(error) => Err(error),
        Ok((t, next)) => if pos < next <= toks.len() {
            product_rest(t, toks, next, p)
        } else {
            Err(ParserFault::SyntaxError)
        },
    }
}

/// Reads what is added to `operand` and subtracted from it.
pub open spec fn sum_rest(operand: Terms, toks: Seq<Lexeme>, pos: int, p: int) -> Parsed
    decreases toks.len() - pos, 8int,
{
    if !(0 <= pos < toks.len()) {
        Err(ParserFault::UnexpectedEndOfInput)
    } else if toks[pos] != Lexeme::Plus && toks[pos] != Lexeme::Minus {
        Ok((operand, pos))
    } else {
        match product_at(toks, pos + 1, p) {
            Err(error) => Err(error),
            Ok((t, next)) => {
                let total = if toks[pos] == Lexeme::Plus {
                    normal_form(operand + t, p)
                } else {
                    normal_form(operand + opposite(t), p)
                };
                if pos < next <= toks.len() {
                    sum_rest(total, toks, next, p)
                } else {
                    Err(ParserFault::SyntaxError)
                }
            },
        }
    }
}

/// Reads an expression made of sums and differences.
pub open spec fn sum_at(toks: Seq<Lexeme>, pos: int, p: int) -> Parsed
    decreases toks.len() - pos, 9int,
{
    match product_at(toks, pos, p) {
        Err(error) => Err(error),
        Ok((t, next)) => if pos < next <= toks.len() {
            sum_rest(t, toks, next, p)
        } else {
            Err(ParserFault::SyntaxError)
        },
    }
}

/// Reads two expressions with an equality sign between them: the difference of the two.
pub open spec fn equality_at(toks: Seq<Lexeme>, pos: int, p: int) -> Parsed {
    match sum_at(toks, pos, p) {
        Err(error) => Err(error),
        Ok((lhs, next)) => match expect(toks, next, Lexeme::Equal) {
            Err(error) => Err(error),
            Ok(start) => match sum_at(toks, start, p) {
                Err(error) => Err(error),
                Ok((rhs, end)) => Ok((normal_form(lhs + opposite(rhs), p), end)),
            },
        },
    }
}

/// The constraint that the tokens stand for.
pub open spec fn parse_spec(toks: Seq<Lexeme>, p: int) -> Result<Terms, ParserFault> {
    match equality_at(toks, 0, p) {
        Err(error) => Err(error),
        Ok((t, next)) => match expect(toks, next, Lexeme::EndOfInput) {
            Err(error) => Err(error),
            Ok(_) => Ok(t),
        },
    }
}

/// What a constraint is and where its expression ends agree with what was read.
pub open spec fn agrees<F: Field>(
    ret: Result<Constraint<F>, ParserError>,
    parsed: Parsed,
    end: int,
) -> bool {
    match (ret, parsed) {
        (Ok(constraint), Ok((t, next))) => constraint@ == t && next == end,
        (Err(error), Err(expected)) => error@ == expected,
        _ => false,
    }
}

/// A normal form is the only one.
pub proof fn lemma_normal_form_unique(r: Terms, t: Terms, p: int)
    requires
        p > 0,
        is_normal_form(r, t, p),
    ensures
        normal_form(t, p) == r,
{
    let q = normal_form(t, p);
    assert(is_normal_form(q, t, p));
    assert forall|m: Mono| mono_wf(m) implies #[trigger] coeff(q, m) == coeff(r, m) by {
        assert(coeff(r, m) == coeff(t, m) % p);
    }
    lemma_terms_unique(q, r, p);
}

/// Opposite terms have opposite coefficients.
pub proof fn lemma_opposite(t: Terms, m: Mono)
    ensures
        coeff(opposite(t), m) == -coeff(t, m),
    decreases t.len(),
{
    if t.len() > 0 {
        lemma_opposite(t.drop_last(), m);
        assert(opposite(t).drop_last() =~= opposite(t.drop_last()));
    }
}

/// A sum is the normal form of all terms together.
proof fn lemma_sum_normal(r: Terms, a: Terms, b: Terms, p: int)
    requires
        p > 0,
        is_sum(r, a, b, p),
    ensures
        normal_form(a + b, p) == r,
{
    assert forall|m: Mono| #[trigger] coeff(r, m) == coeff(a + b, m) % p by {
        lemma_coeff_concat(a, b, m);
    }
    lemma_normal_form_unique(r, a + b, p);
}

/// A difference is the normal form of the terms of one side and the opposites of the other's.
proof fn lemma_difference_normal(r: Terms, a: Terms, b: Terms, p: int)
    requires
        p > 0,
        is_difference(r, a, b, p),
    ensures
        normal_form(a + opposite(b), p) == r,
{
    assert forall|m: Mono| #[trigger] coeff(r, m) == coeff(a + opposite(b), m) % p by {
        lemma_coeff_concat(a, opposite(b), m);
        lemma_opposite(b, m);
    }
    lemma_normal_form_unique(r, a + opposite(b), p);
}

/// A recursive descent parser for Starkom's expression syntax.
#[derive(Debug)]
struct Parser<'a> {
    tokens: &'a [Token],
    position: usize,
}

impl<'a> Parser<'a> {
    spec fn wf(self) -> bool {
        self.position <= self.tokens@.len()
    }

    spec fn toks(self) -> Seq<Lexeme> {
        lexemes(self.tokens@)
    }

    fn new(tokens: &'a [Token]) -> (ret: Self)
        ensures
            ret.wf(),
            ret.tokens == tokens,
            ret.position == 0,
    {
        Parser { tokens, position: 0 }
    }

    /// Returns the next token without consuming it.
    fn peek_token(&self) -> (ret: Result<&'a Token, ParserError>)
        requires
            self.wf(),
        ensures
            match ret {
                Ok(token) => self.position < self.tokens@.len() && token@
                    == self.toks()[self.position as int],
                Err(error) => self.position == self.tokens@.len() && error@
                    == ParserFault::UnexpectedEndOfInput,
            },
    {
        if self.position == self.tokens.len() {
            Err(ParserError::UnexpectedEndOfInput)
        } else {
            Ok(&self.tokens[self.position])
        }
    }

    /// Skips a token.
    fn next_token(&mut self)
        requires
            old(self).position < old(self).tokens@.len(),
        ensures
            final(self).tokens == old(self).tokens,
            final(self).position == old(self).position + 1,
            final(self).wf(),
    {
        let len: usize = self.tokens.len();
        assert(self.position < len);
        self.position += 1;
    }

    /// Returns the next token and skips it.
    fn consume_token(&mut self) -> (ret: Result<&'a Token, ParserError>)
        requires
            old(self).wf(),
        ensures
            final(self).wf(),
            final(self).tokens == old(self).tokens,
            match ret {
                Ok(token) => old(self).position < old(self).tokens@.len() && token@ == old(
                    self,
                ).toks()[old(self).position as int] && final(self).position == old(self).position
                    + 1,
                Err(error) => old(self).position == old(self).tokens@.len() && error@
                    == ParserFault::UnexpectedEndOfInput && final(self).position == old(
                    self,
                ).position,
            },
    {
        match self.peek_token() {
            Ok(token) => {
                self.next_token();
                Ok(token)
            },
            Err(error) => Err(error),
        }
    }

    /// Skips a bracket, an equality sign or the end of the input, which must come next.
    fn skip_token(&mut self, token: Token) -> (ret: Result<(), ParserError>)
        requires
            old(self).wf(),
            token@ == Lexeme::LeftBracket || token@ == Lexeme::RightBracket || token@
                == Lexeme::Equal || token@ == Lexeme::EndOfInput,
        ensures
            final(self).wf(),
            final(self).tokens == old(self).tokens,
            match ret {
                Ok(_) => expect(old(self).toks(), old(self).position as int, token@) == Ok::<
                    int,
                    ParserFault,
                >(final(self).position as int) && final(self).position == old(self).position + 1,
                Err(error) => expect(old(self).toks(), old(self).position as int, token@) == Err::<
                    int,
                    ParserFault,
                >(error@),
            },
    {
        let next = match self.peek_token() {
            Ok(next) => next,
            Err(error) => {
                return Err(error);
            },
        };
        let same = match (next, &token) {
            (Token::LeftBracket, Token::LeftBracket) => true,
            (Token::RightBracket, Token::RightBracket) => true,
            (Token::Equal, Token::Equal) => true,
            (Token::EndOfInput, Token::EndOfInput) => true,
            _ => false,
        };
        if !same {
            return Err(ParserError::SyntaxError);
        }
        self.next_token();
        Ok(())
    }

    /// Reads a rotation, if there is one.
    fn parse_rotation<F: Field>(&mut self) -> (ret: Result<isize, ParserError>)
        requires
            old(self).wf(),
        ensures
            final(self).wf(),
            final(self).tokens == old(self).tokens,
            final(self).position >= old(self).position,
            match ret {
                Ok(rotation) => rotation_at(
                    old(self).toks(),
                    old(self).position as int,
                    F::modulus(),
                ) == Ok::<(int, int), ParserFault>(
                    (rotation as int, final(self).position as int),
                ),
                Err(error) => rotation_at(
                    old(self).toks(),
                    old(self).position as int,
                    F::modulus(),
                ) == Err::<(int, int), ParserFault>(error@),
            },
    {
        let ghost toks = self.toks();
        let ghost pos = self.position as int;
        match self.peek_token() {
            Err(error) => {
                return Err(error);
            },
            Ok(Token::Comma) => {},
            Ok(_) => {
                return Ok(0);
            },
        }
        self.next_token();
        let negative = match self.consume_token() {
            Err(error) => {
                return Err(error);
            },
            Ok(Token::Plus) => false,
            Ok(Token::Minus) => true,
            Ok(_) => {
                return Err(ParserError::SyntaxError);
            },
        };
        match self.consume_token() {
            Err(error) => Err(error),
            Ok(Token::Number10(value)) => {
                let value = match F::from_limbs(value.to_limbs()) {
                    Some(value) => value,
                    None => {
                        return Err(ParserError::NumberTooLarge);
                    },
                };
                proof {
                    value.lemma_value_bounds();
                }
                match scalar_to_isize(value) {
                    Ok(rotation) => {
                        if rotation < 0 {
                            Err(ParserError::RotationTooLarge { rotation: value.to_hexadecimal() })
                        } else if negative {
                            Ok(-rotation)
                        } else {
                            Ok(rotation)
                        }
                    },
                    Err(_) => Err(
                        ParserError::RotationTooLarge { rotation: value.to_hexadecimal() },
                    ),
                }
            },
            Ok(_) => Err(ParserError::SyntaxError),
        }
    }

    /// Reads the column index and the rotation of a variable, in brackets.
    fn parse_variable<F: Field>(&mut self) -> (ret: Result<Constraint<F>, ParserError>)
        requires
            old(self).wf(),
        ensures
            final(self).wf(),
            final(self).tokens == old(self).tokens,
            agrees(
                ret,
                variable_at(old(self).toks(), old(self).position as int, F::modulus()),
                final(self).position as int,
            ),
            ret is Ok ==> final(self).position > old(self).position,
        decreases old(self).tokens@.len() - old(self).position, 0int,
    {
        match self.skip_token(Token::LeftBracket) {
            Err(error) => {
                return Err(error);
            },
            Ok(_) => {},
        }
        let column_index = {
            let expression: Constraint<F> = match self.parse_sum::<F>() {
                Err(error) => {
                    return Err(error);
                },
                Ok(expression) => expression,
            };
            let value = match constant_value(&expression) {
                None => {
                    return Err(
                        ParserError::ColumnIndexNotConstant { expression: expression.to_string() },
                    );
                },
                Some(value) => value,
            };
            match scalar_to_isize(value) {
                Err(error) => {
                    return Err(ParserError::OutOfRange { error });
                },
                Ok(column_index) => {
                    if column_index < 0 {
                        return Err(ParserError::NegativeColumnIndex { column_index });
                    }
                    column_index as usize
                },
            }
        };
        let rotation = match self.parse_rotation::<F>() {
            Err(error) => {
                return Err(error);
            },
            Ok(rotation) => rotation,
        };
        match self.skip_token(Token::RightBracket) {
            Err(error) => {
                return Err(error);
            },
            Ok(_) => {},
        }
        Ok(Constraint::make_var(column_index, rotation))
    }

    /// Reads a number, a variable or an expression in brackets.
    fn parse_leaf<F: Field>(&mut self) -> (ret: Result<Constraint<F>, ParserError>)
        requires
            old(self).wf(),
        ensures
            final(self).wf(),
            final(self).tokens == old(self).tokens,
            agrees(
                ret,
                leaf_at(old(self).toks(), old(self).position as int, F::modulus()),
                final(self).position as int,
            ),
            ret is Ok ==> final(self).position > old(self).position,
        decreases old(self).tokens@.len() - old(self).position, 1int,
    {
        match self.consume_token() {
            Err(error) => Err(error),
            Ok(Token::Number2(value)) => number::<F>(value.to_limbs()),
            Ok(Token::Number8(value)) => number::<F>(value.to_limbs()),
            Ok(Token::Number10(value)) => number::<F>(value.to_limbs()),
            Ok(Token::Number16(value)) => number::<F>(value.to_limbs()),
            Ok(Token::Identifier(label)) => {
                if *label != "var".to_owned() {
                    return Err(ParserError::UnknownIdentifier { label: label.as_str().to_owned() });
                }
                self.parse_variable::<F>()
            },
            Ok(Token::LeftBracket) => {
                let inner = match self.parse_sum::<F>() {
                    Err(error) => {
                        return Err(error);
                    },
                    Ok(inner) => inner,
                };
                match self.skip_token(Token::RightBracket) {
                    Err(error) => Err(error),
                    Ok(_) => Ok(inner),
                }
            },
            Ok(_) => Err(ParserError::SyntaxError),
        }
    }

    /// Reads a leaf with signs in front of it.
    fn parse_unary_expression<F: Field>(&mut self) -> (ret: Result<Constraint<F>, ParserError>)
        requires
            old(self).wf(),
        ensures
            final(self).wf(),
            final(self).tokens == old(self).tokens,
            agrees(
                ret,
                unary_at(old(self).toks(), old(self).position as int, F::modulus()),
                final(self).position as int,
            ),
            ret is Ok ==> final(self).position > old(self).position,
        decreases old(self).tokens@.len() - old(self).position, 2int,
    {
        match self.peek_token() {
            Err(error) => Err(error),
            Ok(Token::Plus) => {
                self.next_token();
                self.parse_unary_expression::<F>()
            },
            Ok(Token::Minus) => {
                self.next_token();
                match self.parse_unary_expression::<F>() {
                    Err(error) => Err(error),
                    Ok(operand) => {
                        let ret = operand.negated();
                        proof {
                            F::lemma_modulus();
                            lemma_difference_normal(ret@, seq![], operand@, F::modulus());
                            assert(seq![] + opposite(operand@) =~= opposite(operand@));
                        }
                        Ok(ret)
                    },
                }
            },
            Ok(_) => self.parse_leaf::<F>(),
        }
    }

    /// Reads an exponent.
    fn parse_exponent<F: Field>(&mut self) -> (ret: Result<isize, ParserError>)
        requires
            old(self).wf(),
        ensures
            final(self).wf(),
            final(self).tokens == old(self).tokens,
            match ret {
                Ok(exponent) => exponent_at(
                    old(self).toks(),
                    old(self).position as int,
                    F::modulus(),
                ) == Ok::<(int, int), ParserFault>(
                    (exponent as int, final(self).position as int),
                ) && final(self).position > old(self).position,
                Err(error) => exponent_at(
                    old(self).toks(),
                    old(self).position as int,
                    F::modulus(),
                ) == Err::<(int, int), ParserFault>(error@),
            },
        decreases old(self).tokens@.len() - old(self).position, 3int,
    {
        match self.parse_unary_expression::<F>() {
            Err(error) => Err(error),
            Ok(expression) => match constant_value(&expression) {
                None => Err(ParserError::ExponentNotConstant),
                Some(value) => match scalar_to_isize(value) {
                    Ok(exponent) => Ok(exponent),
                    Err(error) => Err(ParserError::OutOfRange { error }),
                },
            },
        }
    }

    /// Reads an expression made of powers.
    fn parse_power<F: Field>(&mut self) -> (ret: Result<Constraint<F>, ParserError>)
        requires
            old(self).wf(),
        ensures
            final(self).wf(),
            final(self).tokens == old(self).tokens,
            agrees(
                ret,
                power_at(old(self).toks(), old(self).position as int, F::modulus()),
                final(self).position as int,
            ),
            ret is Ok ==> final(self).position > old(self).position,
        decreases old(self).tokens@.len() - old(self).position, 5int,
    {
        let ghost toks = self.toks();
        let ghost start = self.position as int;
        let ghost p = F::modulus();
        let mut base = match self.parse_unary_expression::<F>() {
            Err(error) => {
                return Err(error);
            },
            Ok(base) => base,
        };
        proof {
            F::lemma_modulus();
        }
        loop
            invariant
                self.wf(),
                self.tokens == old(self).tokens,
                toks == self.toks(),
                start == old(self).position,
                p == F::modulus(),
                p > 0,
                self.position > start,
                power_at(toks, start, p) == power_rest(base@, toks, self.position as int, p),
            decreases self.tokens@.len() - self.position,
        {
            match self.peek_token() {
                Err(error) => {
                    return Err(error);
                },
                Ok(Token::Power) => {},
                Ok(_) => {
                    return Ok(base);
                },
            }
            self.next_token();
            let exponent = match self.parse_exponent::<F>() {
                Err(error) => {
                    return Err(error);
                },
                Ok(exponent) => exponent,
            };
            if !base.can_raise_to(exponent) {
                return Err(ParserError::NegativePower { expression: base.to_string() });
            }
            match base.checked_power(exponent) {
                None => {
                    return Err(ParserError::ExponentOverflow);
                },
                Some(power) => {
                    proof {
                        lemma_normal_form_unique(
                            power@,
                            signed_power_terms(base@, exponent as int, p),
                            p,
                        );
                    }
                    base = power;
                },
            }
        }
    }

    /// Reads an expression made of products and quotients.
    fn parse_product<F: Field>(&mut self) -> (ret: Result<Constraint<F>, ParserError>)
        requires
            old(self).wf(),
        ensures
            final(self).wf(),
            final(self).tokens == old(self).tokens,
            agrees(
                ret,
                product_at(old(self).toks(), old(self).position as int, F::modulus()),
                final(self).position as int,
            ),
            ret is Ok ==> final(self).position > old(self).position,
        decreases old(self).tokens@.len() - old(self).position, 7int,
    {
        let ghost toks = self.toks();
        let ghost start = self.position as int;
        let ghost p = F::modulus();
        let mut operand = match self.parse_power::<F>() {
            Err(error) => {
                return Err(error);
            },
            Ok(operand) => operand,
        };
        proof {
            F::lemma_modulus();
        }
        loop
            invariant
                self.wf(),
                self.tokens == old(self).tokens,
                toks == self.toks(),
                start == old(self).position,
                p == F::modulus(),
                p > 0,
                self.position > start,
                product_at(toks, start, p) == product_rest(
                    operand@,
                    toks,
                    self.position as int,
                    p,
                ),
            decreases self.tokens@.len() - self.position,
        {
            let multiply = match self.peek_token() {
                Err(error) => {
                    return Err(error);
                },
                Ok(Token::Multiply) => true,
                Ok(Token::Divide) => false,
                Ok(_) => {
                    return Ok(operand);
                },
            };
            self.next_token();
            let rhs = match self.parse_power::<F>() {
                Err(error) => {
                    return Err(error);
                },
                Ok(rhs) => rhs,
            };
            if multiply {
                match operand.checked_times(&rhs) {
                    None => {
                        return Err(ParserError::ExponentOverflow);
                    },
                    Some(product) => {
                        proof {
                            lemma_normal_form_unique(
                                product@,
                                product_terms(operand@, rhs@),
                                p,
                            );
                        }
                        operand = product;
                    },
                }
            } else {
                if rhs.num_terms() == 0 {
                    return Err(ParserError::DivisionByZero);
                }
                if rhs.num_terms() >= 2 {
                    return Err(ParserError::DivisionBySum);
                }
                match operand.checked_divided_by(&rhs) {
                    None => {
                        return Err(ParserError::ExponentOverflow);
                    },
                    Some(quotient) => {
                        proof {
                            lemma_normal_form_unique(
                                quotient@,
                                product_terms(operand@, signed_power_terms(rhs@, -1, p)),
                                p,
                            );
                        }
                        operand = quotient;
                    },
                }
            }
        }
    }

    /// Reads an expression made of sums and differences.
    fn parse_sum<F: Field>(&mut self) -> (ret: Result<Constraint<F>, ParserError>)
        requires
            old(self).wf(),
        ensures
            final(self).wf(),
            final(self).tokens == old(self).tokens,
            agrees(
                ret,
                sum_at(old(self).toks(), old(self).position as int, F::modulus()),
                final(self).position as int,
            ),
            ret is Ok ==> final(self).position > old(self).position,
        decreases old(self).tokens@.len() - old(self).position, 9int,
    {
        let ghost toks = self.toks();
        let ghost start = self.position as int;
        let ghost p = F::modulus();
        let mut operand = match self.parse_product::<F>() {
            Err(error) => {
                return Err(error);
            },
            Ok(operand) => operand,
        };
        proof {
            F::lemma_modulus();
        }
        loop
            invariant
                self.wf(),
                self.tokens == old(self).tokens,
                toks == self.toks(),
                start == old(self).position,
                p == F::modulus(),
                p > 0,
                self.position > start,
                sum_at(toks, start, p) == sum_rest(operand@, toks, self.position as int, p),
            decreases self.tokens@.len() - self.position,
        {
            let add = match self.peek_token() {
                Err(error) => {
                    return Err(error);
                },
                Ok(Token::Plus) => true,
                Ok(Token::Minus) => false,
                Ok(_) => {
                    return Ok(operand);
                },
            };
            self.next_token();
            let rhs = match self.parse_product::<F>() {
                Err(error) => {
                    return Err(error);
                },
                Ok(rhs) => rhs,
            };
            let total = if add {
                let total = operand.plus(&rhs);
                proof {
                    lemma_sum_normal(total@, operand@, rhs@, p);
                }
                total
            } else {
                let total = operand.minus(&rhs);
                proof {
                    lemma_difference_normal(total@, operand@, rhs@, p);
                }
                total
            };
            operand = total;
        }
    }

    /// Reads two expressions with an equality sign between them.
    fn parse_equality<F: Field>(&mut self) -> (ret: Result<Constraint<F>, ParserError>)
        requires
            old(self).wf(),
        ensures
            final(self).wf(),
            final(self).tokens == old(self).tokens,
            agrees(
                ret,
                equality_at(old(self).toks(), old(self).position as int, F::modulus()),
                final(self).position as int,
            ),
    {
        let lhs = match self.parse_sum::<F>() {
            Err(error) => {
                return Err(error);
            },
            Ok(lhs) => lhs,
        };
        match self.skip_token(Token::Equal) {
            Err(error) => {
                return Err(error);
            },
            Ok(_) => {},
        }
        let rhs = match self.parse_sum::<F>() {
            Err(error) => {
                return Err(error);
            },
            Ok(rhs) => rhs,
        };
        let ret = lhs.minus(&rhs);
        proof {
            F::lemma_modulus();
            lemma_difference_normal(ret@, lhs@, rhs@, F::modulus());
        }
        Ok(ret)
    }

    /// Reads a whole constraint.
    fn parse<F: Field>(&mut self) -> (ret: Result<Constraint<F>, ParserError>)
        requires
            old(self).wf(),
            old(self).position == 0,
        ensures
            match ret {
                Ok(constraint) => parse_spec(old(self).toks(), F::modulus()) == Ok::<
                    Terms,
                    ParserFault,
                >(constraint@),
                Err(error) => parse_spec(old(self).toks(), F::modulus()) == Err::<
                    Terms,
                    ParserFault,
                >(error@),
            },
    {
        let constraint = match self.parse_equality::<F>() {
            Err(error) => {
                return Err(error);
            },
            Ok(constraint) => constraint,
        };
        match self.skip_token(Token::EndOfInput) {
            Err(error) => Err(error),
            Ok(_) => Ok(constraint),
        }
    }
}

/// The value of a constant expression.
fn constant_value<F: Field>(constraint: &Constraint<F>) -> (ret: Option<F>)
    ensures
        match ret {
            Some(value) => constant_of(constraint@) == Some(value.value()),
            None => constant_of(constraint@) is None,
        },
{
    let ret = constraint.get_constant_value();
    proof {
        use_type_invariant(constraint);
        let t = constraint@;
        if constant_of(t) is Some {
            let c = constant_of(t)->Some_0;
            if t.len() == 0 {
                assert(t =~= const_terms(0));
            } else {
                assert(t[0].0 =~= Seq::<(Variable, int)>::empty());
                assert(t =~= const_terms(c));
            }
        }
    }
    ret
}

/// Makes a constant of a number, unless it is too large for the field.
fn number<F: Field>(limbs: [u64; 4]) -> (ret: Result<Constraint<F>, ParserError>)
    ensures
        match ret {
            Ok(constraint) => crate::field::limbs_value(limbs@) < F::modulus() && constraint@
                == const_terms(crate::field::limbs_value(limbs@)),
            Err(error) => crate::field::limbs_value(limbs@) >= F::modulus() && error@
                == ParserFault::NumberTooLarge,
        },
{
    match F::from_limbs(limbs) {
        Some(value) => Ok(Constraint::make_const(value)),
        None => Err(ParserError::NumberTooLarge),
    }
}

/// Parses a (tokenized) expression in Starkom's expression syntax.
pub fn parse<F: Field>(tokens: &[Token]) -> (ret: Result<Constraint<F>, ParserError>)
    ensures
        match ret {
            Ok(constraint) => parse_spec(lexemes(tokens@), F::modulus()) == Ok::<
                Terms,
                ParserFault,
            >(constraint@),
            Err(error) => parse_spec(lexemes(tokens@), F::modulus()) == Err::<Terms, ParserFault>(
                error@,
            ),
        },
{
    let mut parser = Parser::new(tokens);
    parser.parse::<F>()
}

/// Why a text is not a constraint expression.
#[derive(Debug, Clone, PartialEq, Eq)]
pub enum ExpressionError {
    /// The text cannot be split into tokens.
    Lexer(LexerError),
    /// The tokens are not an expression.
    Parser(ParserError),
}

/// What is wrong with a text that is not a constraint expression.
pub ghost enum ExpressionFault {
    Lexer(LexerError),
    Parser(ParserFault),
}

impl View for ExpressionError {
    type V = ExpressionFault;

    open spec fn view(&self) -> ExpressionFault {
        match *self {
            ExpressionError::Lexer(error) => ExpressionFault::Lexer(error),
            ExpressionError::Parser(error) => ExpressionFault::Parser(error@),
        }
    }
}

/// The constraint that a text stands for.
pub open spec fn expression_of(text: Seq<char>, p: int) -> Result<Terms, ExpressionFault> {
    match scan(text, 0) {
        Err(error) => Err(ExpressionFault::Lexer(error)),
        Ok(toks) => match parse_spec(toks, p) {
            Err(error) => Err(ExpressionFault::Parser(error)),
            Ok(t) => Ok(t),
        },
    }
}

impl<F: Field> Constraint<F> {
    /// Parses a constraint in Starkom's expression syntax.
    pub fn parse_expression(text: &str) -> (ret: Result<Self, ExpressionError>)
        ensures
            match ret {
                Ok(constraint) => expression_of(text@, F::modulus()) == Ok::<
                    Terms,
                    ExpressionFault,
                >(constraint@),
                Err(error) => expression_of(text@, F::modulus()) == Err::<Terms, ExpressionFault>(
                    error@,
                ),
            },
    {
        match tokenize(text) {
            Err(error) => Err(ExpressionError::Lexer(error)),
            Ok(tokens) => match parse::<F>(tokens.as_slice()) {
                Err(error) => Err(ExpressionError::Parser(error)),
                Ok(constraint) => Ok(constraint),
            },
        }
    }
}

impl<F: Field> std::str::FromStr for Constraint<F> {
    type Err = ExpressionError;

    fn from_str(s: &str) -> (ret: Result<Self, ExpressionError>)
        ensures
            match ret {
                Ok(constraint) => expression_of(s@, F::modulus()) == Ok::<Terms, ExpressionFault>(
                    constraint@,
                ),
                Err(error) => expression_of(s@, F::modulus()) == Err::<Terms, ExpressionFault>(
                    error@,
                ),
            },
    {
        Constraint::parse_expression(s)
    }
}

} // verus!
