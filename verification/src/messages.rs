//! Descriptions of errors.
use crate::checking::{describe_mismatch, mismatch_text};
use crate::field::decimal;
use crate::lexer::LexerError;
use crate::parser::{ExpressionError, ParserError, ParserFault};
use crate::proving::ProvingError;
use crate::text::{decimal_text, signed_decimal};
use crate::utils::{RangeError, RangeFault};
use crate::variable::magnitude;
use crate::verifying::VerificationError;
use vstd::prelude::*;
use vstd::string::*;

verus! {

/// The text of two numbers that should be the same, in parentheses.
pub open spec fn bracketed(got: usize, want: usize) -> Seq<char> {
    " ("@ + mismatch_text(got, want) + ")"@
}

/// Describes two numbers that should be the same, after a text.
fn with_mismatch(text: &str, got: usize, want: usize) -> (ret: String)
    ensures
        ret@ == text@ + bracketed(got, want),
{
    let mut ret = text.to_owned();
    ret.append(" (");
    ret.append(describe_mismatch(got, want).as_str());
    ret.append(")");
    proof {
        assert(ret@ =~= text@ + bracketed(got, want));
    }
    ret
}

impl ProvingError {
    /// Describes the error.
    pub fn to_string(&self) -> (ret: String)
        ensures
            ret@ == match *self {
                ProvingError::Rows { got, want } => "incorrect witness size (got "@ + decimal(
                    got as nat,
                ) + " rows, want "@ + decimal(want as nat) + ")"@,
                ProvingError::DegreeBound { got, want } => "incorrect witness degree bound"@
                    + bracketed(got, want),
                ProvingError::Columns { got, want } => "incorrect witness size (got "@ + decimal(
                    got as nat,
                ) + " columns, want "@ + decimal(want as nat) + ")"@,
                ProvingError::ZeroDenominator =>
                "a denominator of the permutation argument is zero"@,
                ProvingError::Wraparound => "permutation accumulator wraparound check failed"@,
                ProvingError::ConstraintViolation =>
                "non-zero remainder in division by (x^n - 1)"@,
                ProvingError::CommittedPoint =>
                "an opened point is in the extended evaluation domain"@,
            },
    {
        match self {
            ProvingError::Rows { got, want } => {
                let mut text = "incorrect witness size (got ".to_owned();
                text.append(decimal_text(*got as u64).as_str());
                text.append(" rows, want ");
                text.append(decimal_text(*want as u64).as_str());
                text.append(")");
                text
            },
            ProvingError::DegreeBound { got, want } => with_mismatch(
                "incorrect witness degree bound",
                *got,
                *want,
            ),
            ProvingError::Columns { got, want } => {
                let mut text = "incorrect witness size (got ".to_owned();
                text.append(decimal_text(*got as u64).as_str());
                text.append(" columns, want ");
                text.append(decimal_text(*want as u64).as_str());
                text.append(")");
                text
            },
            ProvingError::ZeroDenominator => {
                "a denominator of the permutation argument is zero".to_owned()
            },
            ProvingError::Wraparound => {
                "permutation accumulator wraparound check failed".to_owned()
            },
            ProvingError::ConstraintViolation => {
                "non-zero remainder in division by (x^n - 1)".to_owned()
            },
            ProvingError::CommittedPoint => {
                "an opened point is in the extended evaluation domain".to_owned()
            },
        }
    }
}

/// The hexadecimal digit for a number below 16.
pub open spec fn hex_digit(d: int) -> Seq<char> {
    "0123456789abcdef"@.subrange(d, d + 1)
}

/// A byte in hexadecimal notation.
pub open spec fn hex_byte(b: u8) -> Seq<char> {
    hex_digit(b as int / 16) + hex_digit(b as int % 16)
}

/// The short text of a hash: the first and the last two bytes.
pub open spec fn hash_text(hash: Seq<u8>) -> Seq<char> {
    "0x"@ + hex_byte(hash[0]) + hex_byte(hash[1]) + "\u{2026}"@ + hex_byte(hash[30]) + hex_byte(
        hash[31],
    )
}

/// Writes a byte in hexadecimal notation.
fn append_byte(text: &mut String, byte: u8)
    ensures
        final(text)@ == old(text)@ + hex_byte(byte),
{
    let digits = "0123456789abcdef";
    proof {
        reveal_strlit("0123456789abcdef");
    }
    let ghost before = text@;
    let (high, low): (usize, usize) = ((byte / 16) as usize, (byte % 16) as usize);
    text.append(digits.substring_char(high, high + 1));
    text.append(digits.substring_char(low, low + 1));
    proof {
        assert(text@ =~= before + hex_byte(byte));
    }
}

/// Describes a hash.
fn describe_hash(hash: &[u8; 32]) -> (ret: String)
    ensures
        ret@ == hash_text(hash@),
{
    let mut text = "0x".to_owned();
    append_byte(&mut text, hash[0]);
    append_byte(&mut text, hash[1]);
    text.append("\u{2026}");
    append_byte(&mut text, hash[30]);
    append_byte(&mut text, hash[31]);
    text
}

impl VerificationError {
    /// Describes the error.
    pub fn to_string(&self) -> (ret: String)
        ensures
            ret@ == match *self {
                VerificationError::TreeRoots { got, want } => "wrong number of Merkle roots"@
                    + bracketed(got, want),
                VerificationError::CircuitCommitment { got_root, want_root } =>
                "wrong circuit commitment (got "@ + hash_text(got_root@) + ", want "@ + hash_text(
                    want_root@,
                ) + ")"@,
                VerificationError::DegreeBound { got, want } => "wrong degree bound"@ + bracketed(
                    got,
                    want,
                ),
                VerificationError::Blowup { got, want } => "blowup factor mismatch"@ + bracketed(
                    got,
                    want,
                ),
                VerificationError::Polynomials { got, want } =>
                "incorrect number of committed polynomials"@ + bracketed(got, want),
                VerificationError::MissingRotation { rotation } =>
                "the proof doesn't have an opening for the required rotation "@ + signed_decimal(
                    rotation as int,
                ),
                VerificationError::MissingRow { row } =>
                "the proof doesn't have an opening for public row "@ + decimal(row as nat),
                VerificationError::InvalidOpening { reason } => reason@,
                VerificationError::Degenerate =>
                "the opened point is the first element of the evaluation domain"@,
                VerificationError::ConstraintViolation => "constraint violation"@,
            },
    {
        match self {
            VerificationError::TreeRoots { got, want } => with_mismatch(
                "wrong number of Merkle roots",
                *got,
                *want,
            ),
            VerificationError::CircuitCommitment { got_root, want_root } => {
                let mut text = "wrong circuit commitment (got ".to_owned();
                text.append(describe_hash(got_root).as_str());
                text.append(", want ");
                text.append(describe_hash(want_root).as_str());
                text.append(")");
                text
            },
            VerificationError::DegreeBound { got, want } => with_mismatch(
                "wrong degree bound",
                *got,
                *want,
            ),
            VerificationError::Blowup { got, want } => with_mismatch(
                "blowup factor mismatch",
                *got,
                *want,
            ),
            VerificationError::Polynomials { got, want } => with_mismatch(
                "incorrect number of committed polynomials",
                *got,
                *want,
            ),
            VerificationError::MissingRotation { rotation } => {
                let mut text =
                    "the proof doesn't have an opening for the required rotation ".to_owned();
                let ghost before = text@;
                if *rotation < 0 {
                    text.append("-");
                }
                text.append(decimal_text(magnitude(*rotation) as u64).as_str());
                proof {
                    assert(text@ =~= before + signed_decimal(*rotation as int));
                }
                text
            },
            VerificationError::MissingRow { row } => {
                let mut text = "the proof doesn't have an opening for public row ".to_owned();
                text.append(decimal_text(*row as u64).as_str());
                text
            },
            VerificationError::InvalidOpening { reason } => {
                let mut text = "".to_owned();
                text.append(reason.as_str());
                proof {
                    reveal_strlit("");
                    assert(text@ =~= reason@);
                }
                text
            },
            VerificationError::Degenerate => {
                "the opened point is the first element of the evaluation domain".to_owned()
            },
            VerificationError::ConstraintViolation => "constraint violation".to_owned(),
        }
    }
}

/// The text of an error.
pub open spec fn lexer_error_text(error: LexerError) -> Seq<char> {
    match error {
        LexerError::SyntaxError => "syntax error"@,
        LexerError::NumberTooLarge => "number out of range"@,
    }
}

impl LexerError {
    /// Describes the error.
    pub fn to_string(&self) -> (ret: String)
        ensures
            ret@ == lexer_error_text(*self),
    {
        let text = match self {
            LexerError::SyntaxError => "syntax error",
            LexerError::NumberTooLarge => "number out of range",
        };
        text.to_owned()
    }
}

/// The text of an error.
pub open spec fn range_error_text(error: RangeFault) -> Seq<char> {
    match error {
        RangeFault::TooSmall(value) => "out of range: "@ + value + " < "@ + signed_decimal(
            isize::MIN as int,
        ),
        RangeFault::TooLarge(value) => "out of range: "@ + value + " > "@ + decimal(
            isize::MAX as nat,
        ),
    }
}

/// The text of an error.
pub open spec fn parser_error_text(error: ParserFault) -> Seq<char> {
    match error {
        ParserFault::UnexpectedEndOfInput => "unexpected end of input"@,
        ParserFault::SyntaxError => "syntax error"@,
        ParserFault::UnknownIdentifier(label) => "unknown identifier `"@ + label + "`"@,
        ParserFault::NumberTooLarge => "number out of range"@,
        ParserFault::OutOfRange(error) => range_error_text(error),
        ParserFault::ColumnIndexNotConstant(expression) => "invalid column index `"@ + expression
            + "`: must be a constant"@,
        ParserFault::NegativeColumnIndex(column_index) => "invalid witness column index "@
            + signed_decimal(column_index) + ": must be positive"@,
        ParserFault::RotationTooLarge(rotation) => "invalid rotation value "@ + rotation
            + ": must be a small number!"@,
        ParserFault::ExponentNotConstant => "exponents may not contain variables"@,
        ParserFault::NegativePower(expression) => "expression `"@ + expression
            + "` cannot be raised to a negative power"@,
        ParserFault::DivisionByZero => "division by zero"@,
        ParserFault::DivisionBySum => "division by a sum"@,
        ParserFault::ExponentOverflow => "exponent out of range"@,
    }
}

/// Writes a number in decimal notation, with its sign.
fn signed_text(n: isize) -> (ret: String)
    ensures
        ret@ == signed_decimal(n as int),
{
    let mut ret = if n < 0 {
        "-".to_owned()
    } else {
        "".to_owned()
    };
    ret.append(decimal_text(magnitude(n) as u64).as_str());
    proof {
        reveal_strlit("-");
        reveal_strlit("");
        assert(ret@ =~= signed_decimal(n as int));
    }
    ret
}

/// Puts a text between two others.
fn enclosed(before: &str, text: &str, after: &str) -> (ret: String)
    ensures
        ret@ == before@ + text@ + after@,
{
    let mut ret = before.to_owned();
    ret.append(text);
    ret.append(after);
    ret
}

impl RangeError {
    /// Describes the error.
    pub fn to_string(&self) -> (ret: String)
        ensures
            ret@ == range_error_text(self@),
    {
        match self {
            RangeError::TooSmall { value } => {
                let mut text = enclosed("out of range: ", value.as_str(), " < ");
                text.append(signed_text(isize::MIN).as_str());
                text
            },
            RangeError::TooLarge { value } => {
                let mut text = enclosed("out of range: ", value.as_str(), " > ");
                text.append(decimal_text(isize::MAX as u64).as_str());
                text
            },
        }
    }
}

impl ParserError {
    /// Describes the error.
    pub fn to_string(&self) -> (ret: String)
        ensures
            ret@ == parser_error_text(self@),
    {
        match self {
            ParserError::UnexpectedEndOfInput => "unexpected end of input".to_owned(),
            ParserError::SyntaxError => "syntax error".to_owned(),
            ParserError::UnknownIdentifier { label } => enclosed(
                "unknown identifier `",
                label.as_str(),
                "`",
            ),
            ParserError::NumberTooLarge => "number out of range".to_owned(),
            ParserError::OutOfRange { error } => error.to_string(),
            ParserError::ColumnIndexNotConstant { expression } => enclosed(
                "invalid column index `",
                expression.as_str(),
                "`: must be a constant",
            ),
            ParserError::NegativeColumnIndex { column_index } => enclosed(
                "invalid witness column index ",
                signed_text(*column_index).as_str(),
                ": must be positive",
            ),
            ParserError::RotationTooLarge { rotation } => enclosed(
                "invalid rotation value ",
                rotation.as_str(),
                ": must be a small number!",
            ),
            ParserError::ExponentNotConstant => "exponents may not contain variables".to_owned(),
            ParserError::NegativePower { expression } => enclosed(
                "expression `",
                expression.as_str(),
                "` cannot be raised to a negative power",
            ),
            ParserError::DivisionByZero => "division by zero".to_owned(),
            ParserError::DivisionBySum => "division by a sum".to_owned(),
            ParserError::ExponentOverflow => "exponent out of range".to_owned(),
        }
    }
}

impl ExpressionError {
    /// Describes the error.
    pub fn to_string(&self) -> (ret: String)
        ensures
            ret@ == match *self {
                ExpressionError::Lexer(error) => lexer_error_text(error),
                ExpressionError::Parser(error) => parser_error_text(error@),
            },
    {
        match self {
            ExpressionError::Lexer(error) => error.to_string(),
            ExpressionError::Parser(error) => error.to_string(),
        }
    }
}

} // verus!
