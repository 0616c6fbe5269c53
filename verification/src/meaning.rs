//! Laws about the meaning of constraint expressions.
use crate::arith::{
    inverse, invertible, is_inverse, lemma_cong_mul, lemma_cong_sub, lemma_mod_mul, lemma_small,
    mod_pow,
};
use crate::evaluation::terms_defined;
use crate::expr::{is_normal_form, power_fits, product_fits, signed_power_terms};
use crate::field::{decimal, field_text};
use crate::grammar::{all_unsigned, equation, tree_of_sum, unsigned};
use crate::lexer::{scan, Lexeme, LexerError};
use crate::normalization::law_normal_form_exists;
use crate::ops::division_fits;
use crate::parser::{
    constant_of, divided, equality_at, expect, expression_of, multiplied, normal_form, opposite,
    parse_spec, power_at, product_at, raised, sum_at, sum_rest, unary_at, ExpressionFault,
    ParserFault,
};
use crate::roundtrip::{ends_sum, stand_at};
use crate::syntax::{
    is_number, law_constant_value, law_variable_value, lemma_concat_wf, lemma_opposite_wf,
    lemma_reading_value, lemma_reading_wf, lemma_reads_sum, looseness, meaning, meaningful, reading,
    well_grouped, written, Syntax,
};
use crate::terms::{terms_value, terms_wf, Terms};
use crate::text::expression_text;
use crate::utils::signed_value;
use crate::variable::Variable;
use vstd::arithmetic::power::pow;
use vstd::prelude::*;

verus! {

/// An expression that stands anywhere in a list of tokens, and is followed by a token that does not
/// continue it, is read up to that token. The value of what is read is the value of the expression:
/// signs bind tighter than powers, these tighter than products and quotients, these tighter than sums
/// and differences, and operations that bind equally tightly are carried out from the left.
pub proof fn law_expression_value(
    e: Syntax,
    toks: Seq<Lexeme>,
    pos: int,
    s: spec_fn(Variable) -> int,
    p: int,
)
    requires
        p > 1,
        well_grouped(e),
        stand_at(toks, pos, written(e)),
        ends_sum(toks, pos + written(e).len()),
    ensures
        sum_at(toks, pos, p) matches Ok((t, next)) ==> {
            &&& next == pos + written(e).len()
            &&& terms_wf(t, p)
            &&& meaningful(e, s, p) ==> terms_value(t, s, p) % p == meaning(e, s, p) % p
        },
{
    lemma_reads_sum(e, toks, pos, p);
    if reading(e, p) is Ok {
        lemma_reading_wf(e, p);
        if meaningful(e, s, p) {
            lemma_reading_value(e, s, p);
        }
    }
}

/// The value of a constraint is the difference of the values of its two sides.
pub proof fn law_equation_value(
    lhs: Syntax,
    rhs: Syntax,
    s: spec_fn(Variable) -> int,
    p: int,
)
    requires
        p > 1,
        well_grouped(lhs),
        well_grouped(rhs),
    ensures
        parse_spec(equation(lhs, rhs), p) matches Ok(t) ==> {
            &&& terms_wf(t, p)
            &&& meaningful(lhs, s, p) && meaningful(rhs, s, p) ==> terms_value(t, s, p) % p == (
            meaning(lhs, s, p) - meaning(rhs, s, p)) % p
        },
{
    lemma_equation(lhs, rhs, p);
    if reading(lhs, p) is Ok && reading(rhs, p) is Ok {
        lemma_sides(lhs, rhs, s, p);
    }
}

/// The value of the difference of two expressions.
proof fn lemma_sides(lhs: Syntax, rhs: Syntax, s: spec_fn(Variable) -> int, p: int)
    requires
        p > 1,
        well_grouped(lhs),
        well_grouped(rhs),
        reading(lhs, p) is Ok,
        reading(rhs, p) is Ok,
    ensures
        ({
            let t = normal_form(reading(lhs, p)->Ok_0 + opposite(reading(rhs, p)->Ok_0), p);
            &&& terms_wf(t, p)
            &&& meaningful(lhs, s, p) && meaningful(rhs, s, p) ==> terms_value(t, s, p) % p == (
            meaning(lhs, s, p) - meaning(rhs, s, p)) % p
        }),
{
    let (x, y) = (reading(lhs, p)->Ok_0, reading(rhs, p)->Ok_0);
    lemma_reading_wf(lhs, p);
    lemma_reading_wf(rhs, p);
    lemma_difference(x, y, p);
    if meaningful(lhs, s, p) && meaningful(rhs, s, p) {
        lemma_reading_value(lhs, s, p);
        lemma_reading_value(rhs, s, p);
        lemma_cong_sub(
            terms_value(x, s, p),
            meaning(lhs, s, p),
            terms_value(y, s, p),
            meaning(rhs, s, p),
            p,
        );
        let t = normal_form(x + opposite(y), p);
        assert(terms_value(t, s, p) % p == (terms_value(x, s, p) - terms_value(y, s, p)) % p);
    }
}

/// Reading an equation.
proof fn lemma_equation(lhs: Syntax, rhs: Syntax, p: int)
    requires
        p > 1,
        well_grouped(lhs),
        well_grouped(rhs),
    ensures
        parse_spec(equation(lhs, rhs), p) == match reading(lhs, p) {
            Err(error) => Err(error),
            Ok(a) => match reading(rhs, p) {
                Err(error) => Err(error),
                Ok(b) => Ok(normal_form(a + opposite(b), p)),
            },
        },
{
    let toks = equation(lhs, rhs);
    let mid = written(lhs).len() as int;
    let end = mid + 1 + written(rhs).len();
    assert(toks[mid] == Lexeme::Equal);
    assert(toks[end] == Lexeme::EndOfInput);
    assert forall|i: int| 0 <= i < written(lhs).len() implies toks[0 + i] == #[trigger] written(
        lhs,
    )[i] by {}
    assert forall|i: int| 0 <= i < written(rhs).len() implies toks[mid + 1 + i]
        == #[trigger] written(rhs)[i] by {}
    lemma_reads_sum(lhs, toks, 0, p);
    lemma_reads_sum(rhs, toks, mid + 1, p);
    match reading(lhs, p) {
        Err(error) => {
            assert(equality_at(toks, 0, p) == Err::<(Terms, int), ParserFault>(error));
        },
        Ok(a) => {
            assert(sum_rest(a, toks, mid, p) == Ok::<(Terms, int), ParserFault>((a, mid)));
            assert(expect(toks, mid, Lexeme::Equal) == Ok::<int, ParserFault>(mid + 1));
            match reading(rhs, p) {
                Err(error) => {
                    assert(equality_at(toks, 0, p) == Err::<(Terms, int), ParserFault>(error));
                },
                Ok(b) => {
                    assert(sum_rest(b, toks, end, p) == Ok::<(Terms, int), ParserFault>((b, end)));
                    assert(equality_at(toks, 0, p) == Ok::<(Terms, int), ParserFault>(
                        (normal_form(a + opposite(b), p), end),
                    ));
                },
            }
        },
    }
}

/// All of the tokens are read as one expression.
#[verifier::opaque]
pub open spec fn reads_as(part: Seq<Lexeme>, t: Terms, p: int) -> bool {
    sum_at(part.push(Lexeme::EndOfInput), 0, p) == Ok::<(Terms, int), ParserFault>(
        (t, part.len() as int),
    )
}

/// Reading the tokens fails with the given error.
#[verifier::opaque]
pub open spec fn fails_with(part: Seq<Lexeme>, error: ParserFault, p: int) -> bool {
    sum_at(part.push(Lexeme::EndOfInput), 0, p) == Err::<(Terms, int), ParserFault>(error)
}

/// Reading the tokens of an expression.
proof fn lemma_read(e: Syntax, part: Seq<Lexeme>, p: int)
    requires
        p > 1,
        well_grouped(e),
        part == written(e),
    ensures
        match reading(e, p) {
            Err(error) => fails_with(part, error, p),
            Ok(t) => reads_as(part, t, p) && terms_wf(t, p),
        },
{
    reveal(reads_as);
    reveal(fails_with);
    let toks = part.push(Lexeme::EndOfInput);
    let end = part.len() as int;
    assert forall|i: int| 0 <= i < part.len() implies toks[0 + i] == #[trigger] part[i] by {}
    assert(toks[end] == Lexeme::EndOfInput);
    lemma_reads_sum(e, toks, 0, p);
    if reading(e, p) is Ok {
        let t = reading(e, p)->Ok_0;
        assert(sum_rest(t, toks, end, p) == Ok::<(Terms, int), ParserFault>((t, end)));
        lemma_reading_wf(e, p);
    }
}

/// What is read is an expression.
proof fn tree_of(part: Seq<Lexeme>, t: Terms, p: int) -> (e: Syntax)
    requires
        p > 1,
        all_unsigned(part),
        reads_as(part, t, p),
    ensures
        well_grouped(e),
        written(e) == part,
        reading(e, p) == Ok::<Terms, ParserFault>(t),
        terms_wf(t, p),
{
    reveal(reads_as);
    reveal(fails_with);
    let toks = part.push(Lexeme::EndOfInput);
    assert forall|i: int| 0 <= i < toks.len() implies unsigned(#[trigger] toks[i]) by {
        if i < part.len() {
            assert(toks[i] == part[i]);
        }
    }
    let e = tree_of_sum(toks, 0, p);
    assert(toks.subrange(0, part.len() as int) =~= part);
    lemma_read(e, part, p);
    e
}

/// The expression in brackets.
spec fn bracketed(e: Syntax) -> Syntax {
    Syntax::Brackets { inner: Box::new(e) }
}

/// An expression in brackets is read as the expression.
proof fn lemma_bracketed(e: Syntax, p: int)
    requires
        well_grouped(e),
    ensures
        well_grouped(bracketed(e)),
        looseness(bracketed(e)) == 0,
        reading(bracketed(e), p) == reading(e, p),
        written(bracketed(e)) == seq![Lexeme::LeftBracket] + written(e) + seq![
            Lexeme::RightBracket,
        ],
{
    assert(written(bracketed(e)) =~= seq![Lexeme::LeftBracket] + written(e) + seq![
        Lexeme::RightBracket,
    ]);
}

/// A number under `p` is read as a constant.
proof fn lemma_number(e: Syntax, number: Lexeme, n: int, p: int)
    requires
        e == (Syntax::Number { lexeme: number, value: n }),
        is_number(number, n),
        0 <= n < p,
    ensures
        well_grouped(e),
        looseness(e) == 0,
        reading(e, p) == Ok::<Terms, ParserFault>(crate::expr::const_terms(n)),
        constant_of(crate::expr::const_terms(n)) == Some(n),
        written(e) == seq![number],
{
    law_constant_value(n, |v: Variable| 1int, p);
    assert(written(e) =~= seq![number]);
}

/// If the tokens `a` and `b` are read as `x` and `y`, the tokens of `a`, a minus sign, a left bracket,
/// the tokens of `b` and a right bracket are read as an expression whose value is the value of `x`
/// minus the value of `y`, under every assignment and however many terms `y` has.
pub proof fn law_read_difference(
    a: Seq<Lexeme>,
    b: Seq<Lexeme>,
    part: Seq<Lexeme>,
    x: Terms,
    y: Terms,
    p: int,
)
    requires
        p > 1,
        all_unsigned(a),
        all_unsigned(b),
        reads_as(a, x, p),
        reads_as(b, y, p),
        part == a + seq![Lexeme::Minus, Lexeme::LeftBracket] + b + seq![Lexeme::RightBracket],
    ensures
        exists|r: Terms|
            {
                &&& #[trigger] reads_as(part, r, p)
                &&& forall|s: spec_fn(Variable) -> int| #[trigger]
                    terms_value(r, s, p) % p == (terms_value(x, s, p) - terms_value(y, s, p)) % p
            },
{
    let (d, e) = (tree_of(a, x, p), tree_of(b, y, p));
    let whole = Syntax::Subtract { lhs: Box::new(d), rhs: Box::new(bracketed(e)) };
    lemma_bracketed(e, p);
    assert(part =~= written(whole));
    lemma_read(whole, part, p);
    let r = normal_form(x + opposite(y), p);
    assert(reads_as(part, r, p));
    lemma_difference(x, y, p);
}

/// The normal form of a difference.
proof fn lemma_difference(x: Terms, y: Terms, p: int)
    requires
        p > 1,
        terms_wf(x, p),
        terms_wf(y, p),
    ensures
        terms_wf(normal_form(x + opposite(y), p), p),
        forall|s: spec_fn(Variable) -> int| #[trigger]
            terms_value(normal_form(x + opposite(y), p), s, p) % p == (terms_value(x, s, p)
                - terms_value(y, s, p)) % p,
{
    let r = normal_form(x + opposite(y), p);
    lemma_opposite_wf(y);
    lemma_concat_wf(x, opposite(y));
    law_normal_form_exists(x + opposite(y), p);
    assert(crate::expr::is_difference(r, x, y, p)) by {
        assert forall|m: crate::terms::Mono| #[trigger]
            crate::terms::coeff(r, m) == (crate::terms::coeff(x, m) - crate::terms::coeff(y, m))
                % p by {
            crate::terms::lemma_coeff_concat(x, opposite(y), m);
            crate::parser::lemma_opposite(y, m);
        }
    }
    assert forall|s: spec_fn(Variable) -> int| #[trigger]
        terms_value(r, s, p) % p == (terms_value(x, s, p) - terms_value(y, s, p)) % p by {
        crate::laws::law_difference_value(r, x, y, s, p);
    }
}

/// If the tokens `a` and `b` are read as `x` and `y`, the tokens of `a`, a plus sign, a left bracket,
/// the tokens of `b` and a right bracket are read as an expression whose value is the value of `x`
/// plus the value of `y`, under every assignment.
pub proof fn law_read_sum(
    a: Seq<Lexeme>,
    b: Seq<Lexeme>,
    part: Seq<Lexeme>,
    x: Terms,
    y: Terms,
    p: int,
)
    requires
        p > 1,
        all_unsigned(a),
        all_unsigned(b),
        reads_as(a, x, p),
        reads_as(b, y, p),
        part == a + seq![Lexeme::Plus, Lexeme::LeftBracket] + b + seq![Lexeme::RightBracket],
    ensures
        exists|r: Terms|
            {
                &&& #[trigger] reads_as(part, r, p)
                &&& forall|s: spec_fn(Variable) -> int| #[trigger]
                    terms_value(r, s, p) % p == (terms_value(x, s, p) + terms_value(y, s, p)) % p
            },
{
    let (d, e) = (tree_of(a, x, p), tree_of(b, y, p));
    let whole = Syntax::Add { lhs: Box::new(d), rhs: Box::new(bracketed(e)) };
    lemma_bracketed(e, p);
    assert(part =~= written(whole));
    lemma_read(whole, part, p);
    let r = normal_form(x + y, p);
    assert(reads_as(part, r, p));
    lemma_concat_wf(x, y);
    law_normal_form_exists(x + y, p);
    assert(crate::expr::is_sum(r, x, y, p)) by {
        assert forall|m: crate::terms::Mono| #[trigger]
            crate::terms::coeff(r, m) == (crate::terms::coeff(x, m) + crate::terms::coeff(y, m))
                % p by {
            crate::terms::lemma_coeff_concat(x, y, m);
        }
    }
    assert forall|s: spec_fn(Variable) -> int| #[trigger]
        terms_value(r, s, p) % p == (terms_value(x, s, p) + terms_value(y, s, p)) % p by {
        crate::laws::law_sum_value(r, x, y, s, p);
    }
}

/// A minus sign in front of an expression in brackets negates its value; a plus sign and brackets
/// change nothing.
pub proof fn law_read_signs(a: Seq<Lexeme>, signed: Seq<Lexeme>, x: Terms, p: int)
    requires
        p > 1,
        all_unsigned(a),
        reads_as(a, x, p),
        signed == seq![Lexeme::Minus, Lexeme::LeftBracket] + a + seq![Lexeme::RightBracket],
    ensures
        reads_as(seq![Lexeme::LeftBracket] + a + seq![Lexeme::RightBracket], x, p),
        reads_as(seq![Lexeme::Plus, Lexeme::LeftBracket] + a + seq![Lexeme::RightBracket], x, p),
        exists|r: Terms|
            {
                &&& #[trigger] reads_as(signed, r, p)
                &&& forall|s: spec_fn(Variable) -> int| #[trigger]
                    terms_value(r, s, p) % p == (-terms_value(x, s, p)) % p
            },
{
    let e = tree_of(a, x, p);
    let b = bracketed(e);
    lemma_bracketed(e, p);
    let part = seq![Lexeme::LeftBracket] + a + seq![Lexeme::RightBracket];
    assert(written(b) =~= part);
    lemma_read(b, part, p);
    let plus = Syntax::Plus { inner: Box::new(b) };
    assert(written(plus) =~= seq![Lexeme::Plus, Lexeme::LeftBracket] + a + seq![
        Lexeme::RightBracket,
    ]);
    lemma_read(plus, written(plus), p);
    let minus = Syntax::Minus { inner: Box::new(b) };
    assert(written(minus) =~= signed);
    lemma_read(minus, signed, p);
    let r = normal_form(opposite(x), p);
    assert(reads_as(signed, r, p));
    let none: Terms = seq![];
    assert(none + opposite(x) =~= opposite(x));
    lemma_difference(none, x, p);
    assert forall|s: spec_fn(Variable) -> int| #[trigger]
        terms_value(r, s, p) % p == (-terms_value(x, s, p)) % p by {
        assert(terms_value(none, s, p) == 0);
    }
}

/// A product of two expressions in brackets is read unless its exponents are out of range, and its
/// value is the product of the values, wherever these are defined.
pub proof fn law_read_product(
    a: Seq<Lexeme>,
    b: Seq<Lexeme>,
    part: Seq<Lexeme>,
    x: Terms,
    y: Terms,
    p: int,
)
    requires
        p > 1,
        all_unsigned(a),
        all_unsigned(b),
        reads_as(a, x, p),
        reads_as(b, y, p),
        part == seq![Lexeme::LeftBracket] + a + seq![
            Lexeme::RightBracket,
            Lexeme::Multiply,
            Lexeme::LeftBracket,
        ] + b + seq![Lexeme::RightBracket],
    ensures
        !product_fits(x, y) ==> fails_with(part, ParserFault::ExponentOverflow, p),
        product_fits(x, y) ==> exists|r: Terms|
            {
                &&& #[trigger] reads_as(part, r, p)
                &&& forall|s: spec_fn(Variable) -> int|
                    terms_defined(x, s, p) && terms_defined(y, s, p) ==> #[trigger] terms_value(
                        r,
                        s,
                        p,
                    ) % p == (terms_value(x, s, p) * terms_value(y, s, p)) % p
            },
{
    let (d, e) = (tree_of(a, x, p), tree_of(b, y, p));
    let whole = Syntax::Multiply { lhs: Box::new(bracketed(d)), rhs: Box::new(bracketed(e)) };
    lemma_bracketed(d, p);
    lemma_bracketed(e, p);
    assert(part =~= written(whole));
    lemma_read(whole, part, p);
    if product_fits(x, y) {
        let r = multiplied(x, y, p)->Ok_0;
        assert(reads_as(part, r, p));
        crate::algebra::lemma_product_monos_wf(x, y);
        law_normal_form_exists(crate::terms::product_terms(x, y), p);
        assert forall|s: spec_fn(Variable) -> int|
            terms_defined(x, s, p) && terms_defined(y, s, p) implies #[trigger] terms_value(
            r,
            s,
            p,
        ) % p == (terms_value(x, s, p) * terms_value(y, s, p)) % p by {
            crate::laws::law_product_value(r, x, y, s, p);
        }
    }
}

/// A quotient of two expressions in brackets is read if what it divides by is a single term, and
/// unless its exponents are out of range. Its value times the value of what it divides by is the value
/// of what is divided, wherever these are defined and the former is invertible.
pub proof fn law_read_quotient(
    a: Seq<Lexeme>,
    b: Seq<Lexeme>,
    part: Seq<Lexeme>,
    x: Terms,
    y: Terms,
    p: int,
)
    requires
        p > 1,
        all_unsigned(a),
        all_unsigned(b),
        reads_as(a, x, p),
        reads_as(b, y, p),
        part == seq![Lexeme::LeftBracket] + a + seq![
            Lexeme::RightBracket,
            Lexeme::Divide,
            Lexeme::LeftBracket,
        ] + b + seq![Lexeme::RightBracket],
    ensures
        ({
            &&& y.len() == 0 ==> fails_with(part, ParserFault::DivisionByZero, p)
            &&& y.len() > 1 ==> fails_with(part, ParserFault::DivisionBySum, p)
            &&& y.len() == 1 && !division_fits(x, y, p) ==> fails_with(
                part,
                ParserFault::ExponentOverflow,
                p,
            )
            &&& y.len() == 1 && division_fits(x, y, p) ==> exists|r: Terms|
                {
                    &&& #[trigger] reads_as(part, r, p)
                    &&& forall|s: spec_fn(Variable) -> int|
                        terms_defined(x, s, p) && terms_defined(y, s, p) && invertible(
                            terms_value(y, s, p),
                            p,
                        ) ==> (#[trigger] terms_value(r, s, p) * terms_value(y, s, p)) % p
                            == terms_value(x, s, p) % p
                }
        }),
{
    let (d, e) = (tree_of(a, x, p), tree_of(b, y, p));
    let whole = Syntax::Divide { lhs: Box::new(bracketed(d)), rhs: Box::new(bracketed(e)) };
    lemma_bracketed(d, p);
    lemma_bracketed(e, p);
    assert(part =~= written(whole));
    lemma_read(whole, part, p);
    if y.len() == 1 && division_fits(x, y, p) {
        let r = divided(x, y, p)->Ok_0;
        assert(reads_as(part, r, p));
        assert forall|s: spec_fn(Variable) -> int|
            terms_defined(x, s, p) && terms_defined(y, s, p) && invertible(
                terms_value(y, s, p),
                p,
            ) implies (#[trigger] terms_value(r, s, p) * terms_value(y, s, p)) % p == terms_value(
            x,
            s,
            p,
        ) % p by {
            let (u, v, w) = (terms_value(x, s, p), terms_value(y, s, p), terms_value(r, s, p));
            crate::syntax::lemma_quotient_meaning(x, y, u, v, s, p);
            let i = inverse(v, p);
            assert(is_inverse(v, i, p));
            lemma_cong_mul(w, u * i, v, v, p);
            assert((u * i) * v == u * (v * i)) by (nonlinear_arith);
            lemma_mod_mul(u, v * i, p);
        }
    }
}

/// An expression in brackets can be raised to the power of a number that is not above half of `p`. Its
/// value is the power of the value, wherever that is defined.
pub proof fn law_read_power(
    a: Seq<Lexeme>,
    part: Seq<Lexeme>,
    x: Terms,
    number: Lexeme,
    n: nat,
    p: int,
)
    requires
        p > 1,
        all_unsigned(a),
        reads_as(a, x, p),
        is_number(number, n as int),
        2 * n < p,
        n <= isize::MAX,
        part == seq![Lexeme::LeftBracket] + a + seq![
            Lexeme::RightBracket,
            Lexeme::Power,
            number,
        ],
    ensures
        ({
            &&& !power_fits(x, n as int) ==> fails_with(part, ParserFault::ExponentOverflow, p)
            &&& power_fits(x, n as int) ==> exists|r: Terms|
                {
                    &&& #[trigger] reads_as(part, r, p)
                    &&& forall|s: spec_fn(Variable) -> int|
                        terms_defined(x, s, p) ==> #[trigger] terms_value(r, s, p) % p == pow(
                            terms_value(x, s, p),
                            n,
                        ) % p
                }
        }),
{
    let d = tree_of(a, x, p);
    let k = Syntax::Number { lexeme: number, value: n as int };
    let whole = Syntax::Power { lhs: Box::new(bracketed(d)), rhs: Box::new(k) };
    lemma_bracketed(d, p);
    lemma_number(k, number, n as int, p);
    assert(part =~= written(whole));
    assert(signed_value(n as int, p) == n);
    lemma_read(whole, part, p);
    if power_fits(x, n as int) {
        let r = raised(x, n as int, p)->Ok_0;
        assert(reads_as(part, r, p));
        crate::algebra::lemma_power_monos_wf(x, n);
        law_normal_form_exists(crate::terms::power_terms(x, n), p);
        assert forall|s: spec_fn(Variable) -> int| terms_defined(x, s, p) implies #[trigger] terms_value(
            r,
            s,
            p,
        ) % p == pow(terms_value(x, s, p), n) % p by {
            crate::laws::law_power_value(r, x, n, s, p);
        }
    }
}

/// A single term in brackets can be raised to a negative power, other expressions cannot. The value
/// times the opposite power of the value of the term is 1, wherever that is invertible.
pub proof fn law_read_negative_power(
    a: Seq<Lexeme>,
    part: Seq<Lexeme>,
    x: Terms,
    number: Lexeme,
    n: nat,
    p: int,
)
    requires
        p > 1,
        all_unsigned(a),
        reads_as(a, x, p),
        is_number(number, n as int),
        0 < n,
        2 * n < p,
        n <= isize::MAX,
        part == seq![Lexeme::LeftBracket] + a + seq![
            Lexeme::RightBracket,
            Lexeme::Power,
            Lexeme::Minus,
            number,
        ],
    ensures
        ({
            &&& x.len() != 1 ==> fails_with(
                part,
                ParserFault::NegativePower(expression_text(x, p)),
                p,
            )
            &&& x.len() == 1 && !power_fits(x, -(n as int)) ==> fails_with(
                part,
                ParserFault::ExponentOverflow,
                p,
            )
            &&& x.len() == 1 && power_fits(x, -(n as int)) ==> exists|r: Terms|
                {
                    &&& #[trigger] reads_as(part, r, p)
                    &&& forall|s: spec_fn(Variable) -> int|
                        terms_defined(x, s, p) && invertible(terms_value(x, s, p), p) ==> (
                        #[trigger] terms_value(r, s, p) * pow(terms_value(x, s, p), n)) % p == 1
                }
        }),
{
    let d = tree_of(a, x, p);
    let k = Syntax::Number { lexeme: number, value: n as int };
    let m = Syntax::Minus { inner: Box::new(k) };
    let whole = Syntax::Power { lhs: Box::new(bracketed(d)), rhs: Box::new(m) };
    lemma_bracketed(d, p);
    lemma_number(k, number, n as int, p);
    assert(written(m) =~= seq![Lexeme::Minus, number]);
    assert(well_grouped(m));
    assert(reading(m, p) == Ok::<Terms, ParserFault>(
        normal_form(opposite(crate::expr::const_terms(n as int)), p),
    ));
    assert(part =~= written(whole));
    let e = -(n as int);
    lemma_negative_number(n, p);
    lemma_read(whole, part, p);
    if x.len() == 1 && power_fits(x, e) {
        let r = raised(x, e, p)->Ok_0;
        assert(reads_as(part, r, p));
        assert forall|s: spec_fn(Variable) -> int|
            terms_defined(x, s, p) && invertible(terms_value(x, s, p), p) implies (
        #[trigger] terms_value(r, s, p) * pow(terms_value(x, s, p), n)) % p == 1 by {
            let u = terms_value(x, s, p);
            crate::syntax::lemma_negative_power(x, e, s, p);
            crate::syntax::lemma_normal_value(signed_power_terms(x, e, p), s, p);
            let w = mod_pow(u, e, p);
            crate::evaluation::lemma_mod_pow_add(u, e, n as int, p);
            vstd::arithmetic::power::lemma_pow0(u);
            lemma_small(1, p);
            lemma_mod_mul(w, pow(u, n), p);
            vstd::arithmetic::div_mod::lemma_mod_twice(pow(inverse(u, p), n), p);
            lemma_cong_mul(terms_value(r, s, p), w, pow(u, n), pow(u, n), p);
        }
    }
}

/// A number with a minus sign.
proof fn lemma_negative_number(n: nat, p: int)
    requires
        p > 1,
        0 < n,
        2 * n < p,
    ensures
        ({
            let t = normal_form(opposite(crate::expr::const_terms(n as int)), p);
            constant_of(t) == Some(p - n) && signed_value(p - n, p) == -(n as int)
        }),
{
    let t = crate::expr::const_terms(n as int);
    let q = opposite(t);
    let empty = Seq::<(Variable, int)>::empty();
    let r: Terms = seq![(empty, p - n)];
    assert(q =~= seq![(empty, -(n as int))]);
    assert((-(n as int)) % p == p - n) by {
        vstd::arithmetic::div_mod::lemma_mod_multiples_vanish(1, -(n as int), p);
        lemma_small(p - n, p);
        assert(p * 1 + (-(n as int)) == p - n);
    }
    lemma_small(0, p);
    assert(is_normal_form(r, q, p)) by {
        assert forall|m: crate::terms::Mono| #[trigger]
            crate::terms::coeff(r, m) == crate::terms::coeff(q, m) % p by {
            crate::terms::lemma_coeff_single((empty, p - n), m);
            crate::terms::lemma_coeff_single((empty, -(n as int)), m);
        }
    }
    crate::parser::lemma_normal_form_unique(r, q, p);
}

/// A number is read as the constant with that value if it is under `p`, in whatever notation it is
/// written; larger numbers are refused.
pub proof fn law_read_number(
    number: Lexeme,
    part: Seq<Lexeme>,
    n: nat,
    s: spec_fn(Variable) -> int,
    p: int,
)
    requires
        p > 1,
        is_number(number, n as int),
        part == seq![number],
    ensures
        n >= p ==> fails_with(part, ParserFault::NumberTooLarge, p),
        n < p ==> exists|t: Terms| #[trigger]
            reads_as(part, t, p) && terms_value(t, s, p) == n && constant_of(t) == Some(
                n as int,
            ),
{
    let e = Syntax::Number { lexeme: number, value: n as int };
    assert(written(e) =~= part);
    lemma_read(e, part, p);
    if n < p {
        law_constant_value(n as int, s, p);
        assert(reads_as(part, crate::expr::const_terms(n as int), p));
    }
}

/// A variable is read as the variable with its column and rotation: rotations after a plus sign are
/// positive, those after a minus sign are negative, and a variable without one is not rotated.
pub proof fn law_read_variable(
    number: Lexeme,
    column: usize,
    distance: usize,
    plain: Seq<Lexeme>,
    below: Seq<Lexeme>,
    above: Seq<Lexeme>,
    s: spec_fn(Variable) -> int,
    p: int,
)
    requires
        p > 1,
        is_number(number, column as int),
        2 * column < p,
        2 * distance < p,
        column <= isize::MAX,
        distance <= isize::MAX,
        plain == seq![
            Lexeme::Identifier("var"@),
            Lexeme::LeftBracket,
            number,
            Lexeme::RightBracket,
        ],
        below == seq![
            Lexeme::Identifier("var"@),
            Lexeme::LeftBracket,
            number,
            Lexeme::Comma,
            Lexeme::Plus,
            Lexeme::Number10(distance as int),
            Lexeme::RightBracket,
        ],
        above == seq![
            Lexeme::Identifier("var"@),
            Lexeme::LeftBracket,
            number,
            Lexeme::Comma,
            Lexeme::Minus,
            Lexeme::Number10(distance as int),
            Lexeme::RightBracket,
        ],
    ensures
        exists|t: Terms| #[trigger]
            reads_as(plain, t, p) && terms_value(t, s, p) % p == s(
                Variable { column_index: column, rotation: 0 },
            ) % p,
        exists|t: Terms| #[trigger]
            reads_as(below, t, p) && terms_value(t, s, p) % p == s(
                Variable { column_index: column, rotation: distance as isize },
            ) % p,
        exists|t: Terms| #[trigger]
            reads_as(above, t, p) && terms_value(t, s, p) % p == s(
                Variable { column_index: column, rotation: (-distance) as isize },
            ) % p,
{
    let c = Syntax::Number { lexeme: number, value: column as int };
    lemma_number(c, number, column as int, p);
    let unrotated = Syntax::Variable { column: Box::new(c) };
    assert(written(unrotated) =~= plain);
    lemma_read(unrotated, plain, p);
    let v = Variable { column_index: column, rotation: 0 };
    law_variable_value(v, s, p);
    assert(reads_as(plain, crate::expr::var_terms(v), p));
    let down = Syntax::Rotated { column: Box::new(c), up: false, distance: distance as int };
    assert(written(down) =~= below);
    lemma_read(down, below, p);
    let w = Variable { column_index: column, rotation: distance as isize };
    law_variable_value(w, s, p);
    assert(reads_as(below, crate::expr::var_terms(w), p));
    let up = Syntax::Rotated { column: Box::new(c), up: true, distance: distance as int };
    assert(written(up) =~= above);
    lemma_read(up, above, p);
    let u = Variable { column_index: column, rotation: (-distance) as isize };
    law_variable_value(u, s, p);
    assert(reads_as(above, crate::expr::var_terms(u), p));
}

/// A constraint is read if its two sides are, and its value is the difference of the values of the two
/// sides under every assignment.
pub proof fn law_read_equation(a: Seq<Lexeme>, b: Seq<Lexeme>, x: Terms, y: Terms, p: int)
    requires
        p > 1,
        all_unsigned(a),
        all_unsigned(b),
        reads_as(a, x, p),
        reads_as(b, y, p),
    ensures
        parse_spec(a + seq![Lexeme::Equal] + b + seq![Lexeme::EndOfInput], p) matches Ok(r)
            && forall|s: spec_fn(Variable) -> int| #[trigger]
            terms_value(r, s, p) % p == (terms_value(x, s, p) - terms_value(y, s, p)) % p,
{
    let (d, e) = (tree_of(a, x, p), tree_of(b, y, p));
    lemma_equation(d, e, p);
    lemma_difference(x, y, p);
}

/// The tokens are read as an expression.
pub open spec fn is_read(part: Seq<Lexeme>, p: int) -> bool {
    exists|t: Terms| reads_as(part, t, p)
}

/// Reading the tokens of an expression either succeeds or fails.
proof fn lemma_failure(e: Syntax, error: ParserFault, p: int)
    requires
        p > 1,
        well_grouped(e),
    ensures
        fails_with(written(e), error, p) <==> reading(e, p) == Err::<Terms, ParserFault>(error),
        is_read(written(e), p) <==> reading(e, p) is Ok,
{
    lemma_read(e, written(e), p);
    reveal(reads_as);
    reveal(fails_with);
    if reading(e, p) is Ok {
        assert(reads_as(written(e), reading(e, p)->Ok_0, p));
    }
}

/// A sum, or a difference, of two expressions fails with the error of the left one, or, if that is
/// read, with the error of the right one, and does not fail otherwise.
pub proof fn law_sum_fails(a: Syntax, b: Syntax, sum: Syntax, error: ParserFault, p: int)
    requires
        p > 1,
        well_grouped(a),
        well_grouped(b),
        looseness(b) <= 3,
        sum == (Syntax::Add { lhs: Box::new(a), rhs: Box::new(b) }) || sum == (Syntax::Subtract {
            lhs: Box::new(a),
            rhs: Box::new(b),
        }),
    ensures
        fails_with(written(sum), error, p) <==> fails_with(written(a), error, p) || (is_read(
            written(a),
            p,
        ) && fails_with(written(b), error, p)),
        is_read(written(sum), p) <==> is_read(written(a), p) && is_read(written(b), p),
{
    lemma_failure(a, error, p);
    lemma_failure(b, error, p);
    lemma_failure(sum, error, p);
}

/// A product, or a quotient, of two expressions fails with the error of the left one, or, if that is
/// read, with the error of the right one, if one of the two fails.
pub proof fn law_product_fails(a: Syntax, b: Syntax, product: Syntax, error: ParserFault, p: int)
    requires
        p > 1,
        well_grouped(a),
        well_grouped(b),
        looseness(a) <= 3,
        looseness(b) <= 2,
        product == (Syntax::Multiply { lhs: Box::new(a), rhs: Box::new(b) }) || product == (
        Syntax::Divide { lhs: Box::new(a), rhs: Box::new(b) }),
    ensures
        fails_with(written(a), error, p) || (is_read(written(a), p) && fails_with(
            written(b),
            error,
            p,
        )) ==> fails_with(written(product), error, p),
{
    lemma_failure(a, error, p);
    lemma_failure(b, error, p);
    lemma_failure(product, error, p);
}

/// An expression with a sign in front of it, or in brackets, fails with the error of the expression,
/// and does not fail otherwise.
pub proof fn law_sign_fails(a: Syntax, signed: Syntax, error: ParserFault, p: int)
    requires
        p > 1,
        well_grouped(a),
        signed == (Syntax::Brackets { inner: Box::new(a) }) || (looseness(a) <= 1 && (signed == (
        Syntax::Plus { inner: Box::new(a) }) || signed == (Syntax::Minus { inner: Box::new(a) }))),
    ensures
        fails_with(written(signed), error, p) <==> fails_with(written(a), error, p),
        is_read(written(signed), p) <==> is_read(written(a), p),
{
    lemma_failure(a, error, p);
    lemma_failure(signed, error, p);
}

/// No expression starts with an operator other than a sign, a comma, an equality sign, a right bracket
/// or the end of the input, nor with an unknown identifier.
pub proof fn law_unexpected_tokens(toks: Seq<Lexeme>, p: int)
    ensures
        toks.len() == 0 ==> sum_at(toks, 0, p) == Err::<(Terms, int), ParserFault>(
            ParserFault::UnexpectedEndOfInput,
        ),
        toks.len() > 0 && (toks[0] == Lexeme::Multiply || toks[0] == Lexeme::Divide || toks[0]
            == Lexeme::Power || toks[0] == Lexeme::Comma || toks[0] == Lexeme::Equal || toks[0]
            == Lexeme::RightBracket || toks[0] == Lexeme::EndOfInput) ==> sum_at(toks, 0, p)
            == Err::<(Terms, int), ParserFault>(ParserFault::SyntaxError),
        toks.len() > 0 ==> (toks[0] matches Lexeme::Identifier(label) ==> label != "var"@
            ==> sum_at(toks, 0, p) == Err::<(Terms, int), ParserFault>(
            ParserFault::UnknownIdentifier(label),
        )),
{
    if toks.len() == 0 {
        lemma_failing_leaf(toks, 0, ParserFault::UnexpectedEndOfInput, p);
    } else {
        match toks[0] {
            Lexeme::Identifier(label) => if label != "var"@ {
                lemma_failing_leaf(toks, 0, ParserFault::UnknownIdentifier(label), p);
            },
            Lexeme::Multiply => lemma_failing_leaf(toks, 0, ParserFault::SyntaxError, p),
            Lexeme::Divide => lemma_failing_leaf(toks, 0, ParserFault::SyntaxError, p),
            Lexeme::Power => lemma_failing_leaf(toks, 0, ParserFault::SyntaxError, p),
            Lexeme::Comma => lemma_failing_leaf(toks, 0, ParserFault::SyntaxError, p),
            Lexeme::Equal => lemma_failing_leaf(toks, 0, ParserFault::SyntaxError, p),
            Lexeme::RightBracket => lemma_failing_leaf(toks, 0, ParserFault::SyntaxError, p),
            Lexeme::EndOfInput => lemma_failing_leaf(toks, 0, ParserFault::SyntaxError, p),
            _ => {},
        }
    }
}

/// An expression fails with the error of its first leaf.
proof fn lemma_failing_leaf(toks: Seq<Lexeme>, pos: int, error: ParserFault, p: int)
    requires
        unary_at(toks, pos, p) == Err::<(Terms, int), ParserFault>(error),
    ensures
        sum_at(toks, pos, p) == Err::<(Terms, int), ParserFault>(error),
{
    assert(power_at(toks, pos, p) == Err::<(Terms, int), ParserFault>(error));
    assert(product_at(toks, pos, p) == Err::<(Terms, int), ParserFault>(error));
}

/// An expression that is not followed by what has to follow it is refused: a constraint needs an
/// equality sign, and nothing may follow its right side.
pub proof fn law_missing_tokens(
    a: Seq<Lexeme>,
    b: Seq<Lexeme>,
    rest: Seq<Lexeme>,
    x: Terms,
    y: Terms,
    p: int,
)
    requires
        p > 1,
        all_unsigned(a),
        all_unsigned(b),
        reads_as(a, x, p),
        reads_as(b, y, p),
        rest.len() > 0,
        ends_sum(rest, 0),
    ensures
        rest[0] != Lexeme::Equal ==> parse_spec(a + rest, p) == Err::<Terms, ParserFault>(
            ParserFault::SyntaxError,
        ),
        rest[0] != Lexeme::EndOfInput ==> parse_spec(a + seq![Lexeme::Equal] + b + rest, p) == Err::<
            Terms,
            ParserFault,
        >(ParserFault::SyntaxError),
{
    let (d, e) = (tree_of(a, x, p), tree_of(b, y, p));
    let toks = a + rest;
    let n = a.len() as int;
    assert(toks.subrange(0, n) =~= a);
    assert(toks[n] == rest[0]);
    lemma_side(d, toks, n, p);
    let whole = a + seq![Lexeme::Equal] + b + rest;
    let k = n + 1 + b.len();
    assert(whole.subrange(0, k) =~= a + seq![Lexeme::Equal] + b);
    assert(whole[k] == rest[0]);
    lemma_equality(d, e, whole, p);
}

/// The left side of a constraint.
proof fn lemma_side(d: Syntax, toks: Seq<Lexeme>, end: int, p: int)
    requires
        p > 1,
        well_grouped(d),
        reading(d, p) is Ok,
        end == written(d).len(),
        end < toks.len(),
        written(d) == toks.subrange(0, end),
        ends_sum(toks, end),
    ensures
        sum_at(toks, 0, p) == Ok::<(Terms, int), ParserFault>((reading(d, p)->Ok_0, end)),
        toks[end] != Lexeme::Equal ==> parse_spec(toks, p) == Err::<Terms, ParserFault>(
            ParserFault::SyntaxError,
        ),
{
    let t = reading(d, p)->Ok_0;
    assert forall|i: int| 0 <= i < written(d).len() implies toks[0 + i] == #[trigger] written(
        d,
    )[i] by {}
    lemma_reads_sum(d, toks, 0, p);
    assert(sum_rest(t, toks, end, p) == Ok::<(Terms, int), ParserFault>((t, end)));
    if toks[end] != Lexeme::Equal {
        assert(expect(toks, end, Lexeme::Equal) == Err::<int, ParserFault>(
            ParserFault::SyntaxError,
        ));
        assert(equality_at(toks, 0, p) == Err::<(Terms, int), ParserFault>(
            ParserFault::SyntaxError,
        ));
    }
}

/// Both sides of a constraint, with more tokens behind them.
proof fn lemma_equality(d: Syntax, e: Syntax, toks: Seq<Lexeme>, p: int)
    requires
        p > 1,
        well_grouped(d),
        well_grouped(e),
        reading(d, p) is Ok,
        reading(e, p) is Ok,
        written(d).len() + 1 + written(e).len() < toks.len(),
        toks.subrange(0, (written(d).len() + 1 + written(e).len()) as int) == written(d) + seq![
            Lexeme::Equal,
        ] + written(e),
        ends_sum(toks, (written(d).len() + 1 + written(e).len()) as int),
    ensures
        toks[(written(d).len() + 1 + written(e).len()) as int] != Lexeme::EndOfInput ==> parse_spec(
            toks,
            p,
        ) == Err::<Terms, ParserFault>(ParserFault::SyntaxError),
{
    let mid = written(d).len() as int;
    let end = mid + 1 + written(e).len();
    let front = toks.subrange(0, end);
    assert(front[mid] == Lexeme::Equal);
    assert(toks[mid] == Lexeme::Equal);
    assert(toks.subrange(0, mid) =~= written(d)) by {
        assert forall|i: int| 0 <= i < mid implies toks[i] == written(d)[i] by {
            assert(front[i] == written(d)[i]);
        }
    }
    lemma_side(d, toks, mid, p);
    let u = reading(e, p)->Ok_0;
    assert forall|i: int| 0 <= i < written(e).len() implies toks[mid + 1 + i] == #[trigger] written(
        e,
    )[i] by {
        assert(front[mid + 1 + i] == written(e)[i]);
    }
    lemma_reads_sum(e, toks, mid + 1, p);
    assert(sum_rest(u, toks, end, p) == Ok::<(Terms, int), ParserFault>((u, end)));
    assert(expect(toks, mid, Lexeme::Equal) == Ok::<int, ParserFault>(mid + 1));
    assert(equality_at(toks, 0, p) is Ok);
    assert(equality_at(toks, 0, p)->Ok_0.1 == end);
}

/// A variable is refused if its column is not constant or is negative, and an expression cannot be
/// raised to a power that is not constant.
pub proof fn law_refused_columns(
    a: Seq<Lexeme>,
    b: Seq<Lexeme>,
    variable: Seq<Lexeme>,
    power: Seq<Lexeme>,
    x: Terms,
    y: Terms,
    p: int,
)
    requires
        p > 1,
        all_unsigned(a),
        all_unsigned(b),
        reads_as(a, x, p),
        reads_as(b, y, p),
        variable == seq![Lexeme::Identifier("var"@), Lexeme::LeftBracket] + a + seq![
            Lexeme::RightBracket,
        ],
        power == seq![Lexeme::LeftBracket] + b + seq![
            Lexeme::RightBracket,
            Lexeme::Power,
            Lexeme::LeftBracket,
        ] + a + seq![Lexeme::RightBracket],
    ensures
        constant_of(x) is None ==> fails_with(
            variable,
            ParserFault::ColumnIndexNotConstant(expression_text(x, p)),
            p,
        ),
        constant_of(x) is None ==> fails_with(power, ParserFault::ExponentNotConstant, p),
        constant_of(x) matches Some(c) ==> 2 * c > p && p - c <= isize::MAX ==> fails_with(
            variable,
            ParserFault::NegativeColumnIndex(c - p),
            p,
        ),
        constant_of(x) matches Some(c) ==> 2 * c > p && p - c > isize::MAX + 1 ==> fails_with(
            variable,
            ParserFault::OutOfRange(crate::utils::RangeFault::TooSmall(field_text(c, p))),
            p,
        ),
        constant_of(x) matches Some(c) ==> 2 * c < p && c > isize::MAX ==> fails_with(
            variable,
            ParserFault::OutOfRange(crate::utils::RangeFault::TooLarge(decimal(c as nat))),
            p,
        ) && fails_with(
            power,
            ParserFault::OutOfRange(crate::utils::RangeFault::TooLarge(decimal(c as nat))),
            p,
        ),
{
    let (d, e) = (tree_of(a, x, p), tree_of(b, y, p));
    let v = Syntax::Variable { column: Box::new(d) };
    assert(written(v) =~= variable);
    lemma_read(v, variable, p);
    lemma_bracketed(d, p);
    lemma_bracketed(e, p);
    let q = Syntax::Power { lhs: Box::new(bracketed(e)), rhs: Box::new(bracketed(d)) };
    assert(written(q) =~= power);
    lemma_read(q, power, p);
    if let Some(c) = constant_of(x) {
        crate::syntax::lemma_constant(x, c, |w: Variable| 1int, p);
    }
}

/// The constraint that a text stands for is read from its tokens, and its value is the difference of
/// the values of its two sides. What cannot be split into tokens is refused for that reason.
pub proof fn law_text_value(
    text: Seq<char>,
    lhs: Syntax,
    rhs: Syntax,
    s: spec_fn(Variable) -> int,
    p: int,
)
    requires
        p > 1,
        well_grouped(lhs),
        well_grouped(rhs),
    ensures
        scan(text, 0) matches Err(error) ==> expression_of(text, p) == Err::<Terms, ExpressionFault>(
            ExpressionFault::Lexer(error),
        ),
        scan(text, 0) == Ok::<Seq<Lexeme>, LexerError>(equation(lhs, rhs)) ==> (expression_of(
            text,
            p,
        ) matches Ok(t) ==> meaningful(lhs, s, p) && meaningful(rhs, s, p) ==> terms_value(t, s, p)
            % p == (meaning(lhs, s, p) - meaning(rhs, s, p)) % p),
        scan(text, 0) == Ok::<Seq<Lexeme>, LexerError>(equation(lhs, rhs)) && is_read(
            written(lhs),
            p,
        ) && is_read(written(rhs), p) ==> expression_of(text, p) is Ok,
{
    law_equation_value(lhs, rhs, s, p);
    lemma_equation(lhs, rhs, p);
    lemma_failure(lhs, ParserFault::SyntaxError, p);
    lemma_failure(rhs, ParserFault::SyntaxError, p);
}

} // verus!
