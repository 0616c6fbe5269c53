//! Laws about the texts of constraint expressions.
use crate::cell::Cell;
use crate::checking::{cell_text, mismatch_text};
use crate::field::{decimal, digit_value, numeral_value, scalar_text};
use crate::lexer::LexerError;
use crate::messages::{bracketed, hex_byte};
use crate::parser::ParserError;
use crate::terms::{Mono, Terms};
use crate::text::{
    coefficient_text, expression_text, factor_text, factor_texts, join, term_text, term_texts,
    variable_text,
};
use crate::utils::RangeError;
use crate::variable::Variable;
use vstd::prelude::*;
use vstd::string::*;

verus! {

/// One more text behind others.
proof fn lemma_join_push(parts: Seq<Seq<char>>, last: Seq<char>, separator: Seq<char>)
    ensures
        parts.len() > 0 ==> join(parts.push(last), separator) == join(parts, separator) + separator
            + last,
        join(seq![last], separator) == last,
{
    if parts.len() > 0 {
        assert(parts.push(last).drop_last() =~= parts);
    }
}

/// A sum is printed as its terms in order, with plus signs between them; the empty sum is printed as
/// zero.
pub proof fn law_text_of_sum(t: Terms, x: (Mono, int), p: int)
    ensures
        expression_text(seq![], p) == "0"@,
        expression_text(seq![x], p) == term_text(x, p),
        t.len() > 0 ==> expression_text(t.push(x), p) == expression_text(t, p) + " + "@ + term_text(
            x,
            p,
        ),
{
    assert(term_texts(seq![x], p) =~= seq![term_text(x, p)]);
    lemma_join_push(term_texts(t, p), term_text(x, p), " + "@);
    assert(term_texts(t.push(x), p) =~= term_texts(t, p).push(term_text(x, p)));
}

/// A term is printed as its coefficient and its factors in order, with multiplication signs between
/// them. A coefficient of one is left out unless it stands alone.
pub proof fn law_text_of_term(m: Mono, f: (Variable, int), c: int, p: int)
    ensures
        term_text((seq![], c), p) == coefficient_text(c, p),
        term_text((seq![f], 1), p) == factor_text(f),
        m.len() > 0 || c != 1 ==> term_text((m.push(f), c), p) == term_text((m, c), p) + " * "@
            + factor_text(f),
{
    let first = coefficient_text(c, p);
    assert(factor_texts(seq![f]) =~= seq![factor_text(f)]);
    lemma_join_push(factor_texts(m), factor_text(f), " * "@);
    assert(factor_texts(m.push(f)) =~= factor_texts(m).push(factor_text(f)));
    let parts = seq![first] + factor_texts(m);
    lemma_join_push(parts, factor_text(f), " * "@);
    assert(seq![first] + factor_texts(m.push(f)) =~= parts.push(factor_text(f)));
    if m.len() == 0 {
        lemma_join_push(seq![], first, " * "@);
        assert(parts =~= seq![first]);
        assert(m =~= seq![]);
    }
}

/// Coefficients up to half of the order of the field are printed as they are, the others as the
/// negative numbers that they are congruent to.
pub proof fn law_text_of_coefficient(c: int, p: int)
    requires
        0 <= c < p,
        p % 2 == 1,
    ensures
        2 * c < p ==> coefficient_text(c, p) == decimal(c as nat),
        2 * c > p ==> coefficient_text(c, p) == "-"@ + decimal((p - c) as nat),
{
}

/// A factor is printed as its variable, with its exponent behind it unless that is one.
pub proof fn law_text_of_factor(v: Variable, e: int)
    ensures
        factor_text((v, 1)) == variable_text(v),
        e > 1 || e == 0 ==> factor_text((v, e)) == variable_text(v) + " ^ "@ + decimal(e as nat),
        e < 0 ==> factor_text((v, e)) == variable_text(v) + " ^ "@ + ("-"@ + decimal((-e) as nat)),
{
}

/// A variable is printed as its column and, where it is rotated, its rotation with a sign.
pub proof fn law_text_of_variable(v: Variable)
    ensures
        v.rotation == 0 ==> variable_text(v) == "var("@ + decimal(v.column_index as nat) + ")"@,
        v.rotation > 0 ==> variable_text(v) == "var("@ + decimal(v.column_index as nat) + ",+"@
            + decimal(v.rotation as nat) + ")"@,
        v.rotation < 0 ==> variable_text(v) == "var("@ + decimal(v.column_index as nat) + ",-"@
            + decimal((-v.rotation) as nat) + ")"@,
{
}

/// What the errors of the lexer are described as.
pub proof fn law_text_of_lexer_error(error: LexerError, ret: String)
    requires
        call_ensures(LexerError::to_string, (&error,), ret),
    ensures
        ret@ == match error {
            LexerError::SyntaxError => "syntax error"@,
            LexerError::NumberTooLarge => "number out of range"@,
        },
{
}

/// What the errors of the parser are described as: they name the identifier, expression or number that
/// is refused.
pub proof fn law_text_of_parser_error(error: ParserError, ret: String)
    requires
        call_ensures(ParserError::to_string, (&error,), ret),
    ensures
        match error {
            ParserError::UnexpectedEndOfInput => ret@ == "unexpected end of input"@,
            ParserError::SyntaxError => ret@ == "syntax error"@,
            ParserError::UnknownIdentifier { label } => ret@ == "unknown identifier `"@ + label@
                + "`"@,
            ParserError::NumberTooLarge => ret@ == "number out of range"@,
            ParserError::OutOfRange { error: RangeError::TooSmall { value } } => ret@
                == "out of range: "@ + value@ + " < "@ + ("-"@ + decimal(
                (-(isize::MIN as int)) as nat,
            )),
            ParserError::OutOfRange { error: RangeError::TooLarge { value } } => ret@
                == "out of range: "@ + value@ + " > "@ + decimal(isize::MAX as nat),
            ParserError::ColumnIndexNotConstant { expression } => ret@ == "invalid column index `"@
                + expression@ + "`: must be a constant"@,
            ParserError::NegativeColumnIndex { column_index } => column_index < 0 ==> ret@
                == "invalid witness column index "@ + ("-"@ + decimal((-column_index) as nat))
                + ": must be positive"@,
            ParserError::RotationTooLarge { rotation } => ret@ == "invalid rotation value "@
                + rotation@ + ": must be a small number!"@,
            ParserError::ExponentNotConstant => ret@ == "exponents may not contain variables"@,
            ParserError::NegativePower { expression } => ret@ == "expression `"@ + expression@
                + "` cannot be raised to a negative power"@,
            ParserError::DivisionByZero => ret@ == "division by zero"@,
            ParserError::DivisionBySum => ret@ == "division by a sum"@,
            ParserError::ExponentOverflow => ret@ == "exponent out of range"@,
        },
{
}

/// A byte of a hash is written with two hexadecimal digits that are worth the byte.
pub proof fn law_text_of_byte(b: u8)
    ensures
        hex_byte(b).len() == 2,
        numeral_value(hex_byte(b), 16) == b,
{
    reveal_strlit("0123456789abcdef");
    let (x, y) = (b as int / 16, b as int % 16);
    let (c, d) = ("0123456789abcdef"@[x], "0123456789abcdef"@[y]);
    assert(hex_byte(b) =~= seq![c, d]);
    lemma_hex_digit(x);
    lemma_hex_digit(y);
    assert(seq![c, d].drop_last() =~= seq![c]);
    assert(seq![c].drop_last() =~= Seq::<char>::empty());
    reveal_with_fuel(numeral_value, 3);
}

/// The value of a hexadecimal digit.
proof fn lemma_hex_digit(x: int)
    requires
        0 <= x < 16,
    ensures
        digit_value("0123456789abcdef"@[x]) == x,
{
    reveal_strlit("0123456789abcdef");
}

/// A cell is described with its row, its column and its value, and two numbers that should be the same
/// with what was found and what is asked for.
pub proof fn law_text_of_cell(cell: Cell, value: int, got: usize, want: usize)
    ensures
        cell_text(cell, value) == "cell("@ + decimal(cell.row as nat) + ", "@ + decimal(
            cell.column as nat,
        ) + ") = "@ + scalar_text(value),
        mismatch_text(got, want) == "got "@ + decimal(got as nat) + ", want "@ + decimal(
            want as nat,
        ),
        bracketed(got, want) == " ("@ + mismatch_text(got, want) + ")"@,
{
}

} // verus!
