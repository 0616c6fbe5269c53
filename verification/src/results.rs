//! Laws about what operations on constraint expressions return.
use crate::arith::{inverse, invertible, is_inverse, lemma_cong_mul, lemma_mod_mul};
use crate::assignment::Assignment;
use crate::evaluation::terms_defined;
use crate::expr::{shiftable, valuation, Constraint};
use crate::expressions::{law_degree, law_negative_power_value, law_shifted_columns};
use crate::field::Field;
use crate::grammar::equation;
use crate::laws::{law_difference_value, law_power_value, law_product_value, law_sum_value};
use crate::lexer::{lexemes, scan, tokenize, Lexeme, LexerError, Token};
use crate::meaning::{is_read, law_text_value};
use crate::syntax::{
    law_constant_value, law_variable_value, meaning, meaningful, well_grouped, written, Syntax,
};
use crate::terms::{terms_have, terms_value, Terms};
use crate::variable::Variable;
use vstd::arithmetic::power::pow;
use vstd::prelude::*;

verus! {

/// The value of what adding two constraints returns is the sum of their values.
pub proof fn law_plus<F: Field>(
    a: Constraint<F>,
    b: Constraint<F>,
    ret: Constraint<F>,
    s: spec_fn(Variable) -> int,
)
    requires
        call_ensures(Constraint::<F>::plus, (&a, &b), ret),
    ensures
        terms_value(ret@, s, F::modulus()) % F::modulus() == (terms_value(a@, s, F::modulus())
            + terms_value(b@, s, F::modulus())) % F::modulus(),
{
    F::lemma_modulus();
    law_sum_value(ret@, a@, b@, s, F::modulus());
}

/// The value of what subtracting two constraints returns is the difference of their values.
pub proof fn law_minus<F: Field>(
    a: Constraint<F>,
    b: Constraint<F>,
    ret: Constraint<F>,
    s: spec_fn(Variable) -> int,
)
    requires
        call_ensures(Constraint::<F>::minus, (&a, &b), ret),
    ensures
        terms_value(ret@, s, F::modulus()) % F::modulus() == (terms_value(a@, s, F::modulus())
            - terms_value(b@, s, F::modulus())) % F::modulus(),
{
    F::lemma_modulus();
    law_difference_value(ret@, a@, b@, s, F::modulus());
}

/// The value of what negating a constraint returns is the opposite of its value.
pub proof fn law_negated<F: Field>(
    a: Constraint<F>,
    ret: Constraint<F>,
    s: spec_fn(Variable) -> int,
)
    requires
        call_ensures(Constraint::<F>::negated, (&a,), ret),
    ensures
        terms_value(ret@, s, F::modulus()) % F::modulus() == (-terms_value(a@, s, F::modulus()))
            % F::modulus(),
{
    F::lemma_modulus();
    let none: Terms = seq![];
    law_difference_value(ret@, none, a@, s, F::modulus());
    assert(terms_value(none, s, F::modulus()) == 0);
}

/// The value of what multiplying two constraints returns is the product of their values, wherever
/// these are defined.
pub proof fn law_times<F: Field>(
    a: Constraint<F>,
    b: Constraint<F>,
    ret: Constraint<F>,
    s: spec_fn(Variable) -> int,
)
    requires
        call_ensures(Constraint::<F>::times, (&a, &b), ret),
        terms_defined(a@, s, F::modulus()),
        terms_defined(b@, s, F::modulus()),
    ensures
        terms_value(ret@, s, F::modulus()) % F::modulus() == (terms_value(a@, s, F::modulus())
            * terms_value(b@, s, F::modulus())) % F::modulus(),
{
    F::lemma_modulus();
    law_product_value(ret@, a@, b@, s, F::modulus());
}

/// The value of what dividing a constraint by a single term returns, times the value of the term, is
/// the value of the constraint, wherever these are defined and the former is invertible.
pub proof fn law_divided_by<F: Field>(
    a: Constraint<F>,
    b: Constraint<F>,
    ret: Constraint<F>,
    s: spec_fn(Variable) -> int,
)
    requires
        call_ensures(Constraint::<F>::divided_by, (&a, &b), ret),
        crate::terms::terms_wf(a@, F::modulus()),
        crate::terms::terms_wf(b@, F::modulus()),
        crate::ops::division_fits(a@, b@, F::modulus()),
        terms_defined(a@, s, F::modulus()),
        terms_defined(b@, s, F::modulus()),
        invertible(terms_value(b@, s, F::modulus()), F::modulus()),
    ensures
        (terms_value(ret@, s, F::modulus()) * terms_value(b@, s, F::modulus())) % F::modulus()
            == terms_value(a@, s, F::modulus()) % F::modulus(),
{
    let p = F::modulus();
    F::lemma_modulus();
    let (u, v, w) = (terms_value(a@, s, p), terms_value(b@, s, p), terms_value(ret@, s, p));
    crate::parser::lemma_normal_form_unique(
        ret@,
        crate::terms::product_terms(a@, crate::expr::signed_power_terms(b@, -1, p)),
        p,
    );
    crate::syntax::lemma_quotient_meaning(a@, b@, u, v, s, p);
    let i = inverse(v, p);
    assert(is_inverse(v, i, p));
    lemma_cong_mul(w, u * i, v, v, p);
    assert((u * i) * v == u * (v * i)) by (nonlinear_arith);
    lemma_mod_mul(u, v * i, p);
}

/// The value of what raising a constraint to a power returns is the power of its value, wherever that
/// is defined. For a negative power, its product with the opposite power of the value is 1.
pub proof fn law_power<F: Field>(
    a: Constraint<F>,
    exponent: isize,
    ret: Constraint<F>,
    s: spec_fn(Variable) -> int,
)
    requires
        call_ensures(Constraint::<F>::power, (&a, exponent), ret),
        crate::terms::terms_wf(a@, F::modulus()),
        terms_defined(a@, s, F::modulus()),
    ensures
        exponent >= 0 ==> terms_value(ret@, s, F::modulus()) % F::modulus() == pow(
            terms_value(a@, s, F::modulus()),
            exponent as nat,
        ) % F::modulus(),
        exponent < 0 && a@.len() == 1 && invertible(terms_value(a@, s, F::modulus()), F::modulus())
            ==> (terms_value(ret@, s, F::modulus()) * pow(
            terms_value(a@, s, F::modulus()),
            (-exponent) as nat,
        )) % F::modulus() == 1,
{
    let p = F::modulus();
    F::lemma_modulus();
    if exponent >= 0 {
        law_power_value(ret@, a@, exponent as nat, s, p);
    } else if a@.len() == 1 && invertible(terms_value(a@, s, p), p) {
        law_negative_power_value(ret@, a@, (-exponent) as nat, s, p);
    }
}

/// Evaluating a constraint returns its value when every variable has the value that is substituted for
/// it.
pub proof fn law_evaluate<F: Field>(
    a: Constraint<F>,
    substitution: Assignment<F>,
    ret: F,
    s: spec_fn(Variable) -> int,
)
    requires
        call_ensures(Constraint::<F>::evaluate, (&a, &substitution), ret),
        forall|v: Variable| #[trigger] terms_have(a@, v) ==> s(v) == substitution@[v].value(),
    ensures
        ret.value() == terms_value(a@, s, F::modulus()) % F::modulus(),
{
    crate::history::lemma_same_value(a@, valuation(substitution@), s, F::modulus());
}

/// Remapping a constraint adds the offset to the columns of its variables and keeps their rotations.
/// Its value is that of the constraint when every variable stands for the one that is as many columns
/// to the right.
pub proof fn law_remap_variables<F: Field>(
    a: Constraint<F>,
    offset: isize,
    ret: Constraint<F>,
    v: Variable,
    s: spec_fn(Variable) -> int,
    u: spec_fn(Variable) -> int,
)
    requires
        call_ensures(Constraint::<F>::remap_variables, (&a, offset), ret),
        shiftable(a@, 0),
        shiftable(a@, offset as int),
        forall|w: Variable, x: Variable|
            x.column_index == w.column_index + offset && x.rotation == w.rotation ==> #[trigger] u(w)
                == #[trigger] s(x),
    ensures
        terms_value(ret@, s, F::modulus()) == terms_value(a@, u, F::modulus()),
        terms_have(ret@, v) <==> exists|w: Variable| #[trigger]
            terms_have(a@, w) && v.column_index == w.column_index + offset && v.rotation
                == w.rotation,
{
    law_shifted_columns(a@, offset as int, v, s, u, F::modulus());
}

/// The lowest column of a constraint is the column of one of its variables and not above that of any;
/// it is 0 where there are no variables.
pub proof fn law_lowest_column_of<F: Field>(a: Constraint<F>, ret: usize, v: Variable)
    requires
        call_ensures(Constraint::<F>::get_min_column_index, (&a,), ret),
    ensures
        terms_have(a@, v) ==> ret <= v.column_index,
        terms_have(a@, v) ==> exists|u: Variable| #[trigger]
            terms_have(a@, u) && u.column_index == ret,
        (forall|u: Variable| !#[trigger] terms_have(a@, u)) ==> ret == 0,
{
    if terms_have(a@, v) {
        assert(!(forall|u: Variable| !#[trigger] terms_have(a@, u)));
    }
}

/// The degree of a constraint is the highest sum of exponents of its terms.
pub proof fn law_degree_of<F: Field>(a: Constraint<F>, ret: usize, i: int)
    requires
        call_ensures(Constraint::<F>::get_degree, (&a,), ret),
    ensures
        0 <= i < a@.len() ==> crate::expr::mono_degree(a@[i].0) <= ret,
        ret > 0 ==> exists|j: int|
            0 <= j < a@.len() && #[trigger] crate::expr::mono_degree(a@[j].0) == ret,
{
    let m = Seq::<(Variable, int)>::empty();
    law_degree(a@, i, m, m, Variable { column_index: 0, rotation: 0 }, 0);
}

/// A constraint that is made of a constant has its value, and one that is made of a variable has the
/// value of the variable.
pub proof fn law_made_leaves<F: Field>(
    value: F,
    column_index: usize,
    rotation: isize,
    constant: Constraint<F>,
    variable: Constraint<F>,
    s: spec_fn(Variable) -> int,
)
    requires
        call_ensures(Constraint::<F>::make_const, (value,), constant),
        call_ensures(Constraint::<F>::make_var, (column_index, rotation), variable),
    ensures
        terms_value(constant@, s, F::modulus()) == value.value(),
        terms_value(variable@, s, F::modulus()) % F::modulus() == s(
            Variable { column_index, rotation },
        ) % F::modulus(),
{
    F::lemma_modulus();
    value.lemma_value_bounds();
    law_constant_value(value.value(), s, F::modulus());
    law_variable_value(Variable { column_index, rotation }, s, F::modulus());
}

/// A text that consists of two expressions with an equality sign between them is parsed if each of the
/// two is read, and the value of the constraint is the difference of the values of the expressions.
pub proof fn law_parse_expression<F: Field>(
    text: &str,
    lhs: Syntax,
    rhs: Syntax,
    ret: Result<Constraint<F>, crate::parser::ExpressionError>,
    s: spec_fn(Variable) -> int,
)
    requires
        call_ensures(Constraint::<F>::parse_expression, (text,), ret),
        well_grouped(lhs),
        well_grouped(rhs),
        scan(text@, 0) == Ok::<Seq<Lexeme>, LexerError>(equation(lhs, rhs)),
    ensures
        ret matches Ok(c) ==> meaningful(lhs, s, F::modulus()) && meaningful(rhs, s, F::modulus())
            ==> terms_value(c@, s, F::modulus()) % F::modulus() == (meaning(lhs, s, F::modulus())
            - meaning(rhs, s, F::modulus())) % F::modulus(),
        is_read(written(lhs), F::modulus()) && is_read(written(rhs), F::modulus()) ==> ret is Ok,
{
    F::lemma_modulus();
    law_text_value(text@, lhs, rhs, s, F::modulus());
}

/// Splitting a text into tokens returns its tokens, up to the end of the input, or the reason why it
/// has none.
pub proof fn law_tokenize(text: &str, ret: Result<Vec<Token>, LexerError>)
    requires
        call_ensures(tokenize, (text,), ret),
    ensures
        ret matches Ok(tokens) ==> scan(text@, 0) == Ok::<Seq<Lexeme>, LexerError>(
            Seq::new(tokens@.len(), |i: int| tokens@[i]@),
        ),
        ret matches Err(error) ==> scan(text@, 0) == Err::<Seq<Lexeme>, LexerError>(error),
{
    if let Ok(tokens) = ret {
        assert(lexemes(tokens@) =~= Seq::new(tokens@.len(), |i: int| tokens@[i]@));
    }
}

/// Each token stands for the symbol, word or number that it is named after.
pub proof fn law_token_views(n: crate::field::Scalar, label: String)
    ensures
        Token::Plus@ == Lexeme::Plus,
        Token::Minus@ == Lexeme::Minus,
        Token::Multiply@ == Lexeme::Multiply,
        Token::Divide@ == Lexeme::Divide,
        Token::Power@ == Lexeme::Power,
        Token::Comma@ == Lexeme::Comma,
        Token::Equal@ == Lexeme::Equal,
        Token::LeftBracket@ == Lexeme::LeftBracket,
        Token::RightBracket@ == Lexeme::RightBracket,
        Token::EndOfInput@ == Lexeme::EndOfInput,
        Token::Identifier(label)@ == Lexeme::Identifier(label@),
        Token::Number2(n)@ == Lexeme::Number2(n.value()),
        Token::Number8(n)@ == Lexeme::Number8(n.value()),
        Token::Number10(n)@ == Lexeme::Number10(n.value()),
        Token::Number16(n)@ == Lexeme::Number16(n.value()),
{
}

/// Printing a constraint prints its terms in order, with plus signs between them.
pub proof fn law_to_string<F: Field>(a: Constraint<F>, ret: String)
    requires
        call_ensures(Constraint::<F>::to_string, (&a,), ret),
    ensures
        a@.len() == 0 ==> ret@ == "0"@,
        a@.len() == 1 ==> ret@ == crate::text::term_text(a@[0], F::modulus()),
        a@.len() > 1 ==> ret@ == crate::text::expression_text(a@.drop_last(), F::modulus())
            + " + "@ + crate::text::term_text(a@.last(), F::modulus()),
{
    let p = F::modulus();
    if a@.len() > 0 {
        crate::printing::law_text_of_sum(a@.drop_last(), a@.last(), p);
        assert(a@.drop_last().push(a@.last()) =~= a@);
        if a@.len() == 1 {
            assert(a@ =~= seq![a@[0]]);
        }
    }
}

/// Making a constraint canonical multiplies it with the smallest monomial that clears its
/// denominators: no exponent is negative, and it is zero where the constraint is zero, wherever that is
/// defined.
pub proof fn law_canonicalize<F: Field>(
    a: Constraint<F>,
    ret: Constraint<F>,
    s: spec_fn(Variable) -> int,
    i: int,
    j: int,
)
    requires
        call_ensures(Constraint::<F>::canonicalize, (&a,), ret),
        crate::terms::monos_wf(a@),
        terms_defined(a@, s, F::modulus()),
    ensures
        0 <= i < ret@.len() && 0 <= j < ret@[i].0.len() ==> ret@[i].0[j].1 >= 0,
        terms_value(ret@, s, F::modulus()) % F::modulus() == 0 <==> terms_value(
            a@,
            s,
            F::modulus(),
        ) % F::modulus() == 0,
{
    F::lemma_modulus();
    let k = choose|k: crate::terms::Mono| crate::terms::is_clearing(k, a@);
    crate::laws::law_canonical_form_value(ret@, a@, k, s, F::modulus());
    if 0 <= i < ret@.len() && 0 <= j < ret@[i].0.len() {
        assert(ret@[i].0[j].1 >= 0);
    }
}

} // verus!
