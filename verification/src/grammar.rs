//! Which lists of tokens are constraint expressions.
use crate::lexer::Lexeme;
use crate::parser::{
    equality_at, expect, exponent_at, leaf_at, parse_spec, power_at, power_rest, product_at,
    product_rest, raised, multiplied, divided, sum_at, sum_rest, unary_at, variable_at, normal_form,
    opposite,
};
use crate::roundtrip::{ends_power, ends_product, ends_sum};
use crate::syntax::{looseness, well_grouped, written, Syntax};
use crate::terms::Terms;
use vstd::prelude::*;

verus! {

/// The token is not a negative number: numbers are written without a sign.
pub open spec fn unsigned(lexeme: Lexeme) -> bool {
    match lexeme {
        Lexeme::Number2(value) => value >= 0,
        Lexeme::Number8(value) => value >= 0,
        Lexeme::Number10(value) => value >= 0,
        Lexeme::Number16(value) => value >= 0,
        _ => true,
    }
}

/// No token is a negative number.
pub open spec fn all_unsigned(toks: Seq<Lexeme>) -> bool {
    forall|i: int| 0 <= i < toks.len() ==> unsigned(#[trigger] toks[i])
}

/// The expression is written at the given position, and ends at another.
spec fn spans(e: Syntax, toks: Seq<Lexeme>, pos: int, end: int) -> bool {
    &&& 0 <= pos < end <= toks.len()
    &&& well_grouped(e)
    &&& written(e) == toks.subrange(pos, end)
}

/// A token and what comes behind it.
proof fn lemma_spans_head(toks: Seq<Lexeme>, pos: int, end: int)
    requires
        0 <= pos < end <= toks.len(),
    ensures
        toks.subrange(pos, end) == seq![toks[pos]] + toks.subrange(pos + 1, end),
{
    assert(toks.subrange(pos, end) =~= seq![toks[pos]] + toks.subrange(pos + 1, end));
}

/// Two expressions with an operator between them.
proof fn lemma_spans_operator(toks: Seq<Lexeme>, pos: int, mid: int, end: int)
    requires
        0 <= pos < mid,
        mid + 1 < end <= toks.len(),
    ensures
        toks.subrange(pos, end) == toks.subrange(pos, mid) + (seq![toks[mid]] + toks.subrange(
            mid + 1,
            end,
        )),
{
    assert(toks.subrange(pos, end) =~= toks.subrange(pos, mid) + (seq![toks[mid]] + toks.subrange(
        mid + 1,
        end,
    )));
}

/// The variable that was read.
proof fn tree_of_variable(toks: Seq<Lexeme>, pos: int, p: int) -> (e: Syntax)
    requires
        all_unsigned(toks),
        0 < pos,
        pos <= toks.len(),
        toks[pos - 1] == Lexeme::Identifier("var"@),
        variable_at(toks, pos, p) is Ok,
    ensures
        spans(e, toks, pos - 1, variable_at(toks, pos, p)->Ok_0.1),
        looseness(e) == 0,
    decreases toks.len() - pos, 0int,
{
    assert(toks[pos] == Lexeme::LeftBracket);
    let column = tree_of_sum(toks, pos + 1, p);
    let (t, next) = sum_at(toks, pos + 1, p)->Ok_0;
    let end = variable_at(toks, pos, p)->Ok_0.1;
    let head = seq![Lexeme::Identifier("var"@), Lexeme::LeftBracket];
    if toks[next] != Lexeme::Comma {
        let e = Syntax::Variable { column: Box::new(column) };
        assert(end == next + 1);
        assert(toks.subrange(pos - 1, end) =~= head + (toks.subrange(pos + 1, next) + seq![
            Lexeme::RightBracket,
        ]));
        e
    } else {
        let up = toks[next + 1] == Lexeme::Minus;
        let distance = toks[next + 2]->Number10_0;
        assert(unsigned(toks[next + 2]));
        let e = Syntax::Rotated { column: Box::new(column), up, distance };
        assert(end == next + 4);
        assert(toks.subrange(pos - 1, end) =~= head + (toks.subrange(pos + 1, next) + seq![
            Lexeme::Comma,
            if up {
                Lexeme::Minus
            } else {
                Lexeme::Plus
            },
            Lexeme::Number10(distance),
            Lexeme::RightBracket,
        ]));
        e
    }
}

/// The number, variable or expression in brackets that was read.
proof fn tree_of_leaf(toks: Seq<Lexeme>, pos: int, p: int) -> (e: Syntax)
    requires
        all_unsigned(toks),
        0 <= pos,
        leaf_at(toks, pos, p) is Ok,
    ensures
        spans(e, toks, pos, leaf_at(toks, pos, p)->Ok_0.1),
        looseness(e) == 0,
    decreases toks.len() - pos, 1int,
{
    let end = leaf_at(toks, pos, p)->Ok_0.1;
    assert(unsigned(toks[pos]));
    match toks[pos] {
        Lexeme::Identifier(label) => tree_of_variable(toks, pos + 1, p),
        Lexeme::LeftBracket => {
            let inner = tree_of_sum(toks, pos + 1, p);
            let next = sum_at(toks, pos + 1, p)->Ok_0.1;
            assert(toks.subrange(pos, end) =~= seq![Lexeme::LeftBracket] + (toks.subrange(
                pos + 1,
                next,
            ) + seq![Lexeme::RightBracket]));
            Syntax::Brackets { inner: Box::new(inner) }
        },
        _ => {
            let value = match toks[pos] {
                Lexeme::Number2(value) => value,
                Lexeme::Number8(value) => value,
                Lexeme::Number10(value) => value,
                Lexeme::Number16(value) => value,
                _ => 0,
            };
            assert(toks.subrange(pos, end) =~= seq![toks[pos]]);
            Syntax::Number { lexeme: toks[pos], value }
        },
    }
}

/// The expression with signs that was read.
proof fn tree_of_unary(toks: Seq<Lexeme>, pos: int, p: int) -> (e: Syntax)
    requires
        all_unsigned(toks),
        0 <= pos,
        unary_at(toks, pos, p) is Ok,
    ensures
        spans(e, toks, pos, unary_at(toks, pos, p)->Ok_0.1),
        looseness(e) <= 1,
    decreases toks.len() - pos, 2int,
{
    if toks[pos] == Lexeme::Plus || toks[pos] == Lexeme::Minus {
        let inner = tree_of_unary(toks, pos + 1, p);
        lemma_spans_head(toks, pos, unary_at(toks, pos, p)->Ok_0.1);
        if toks[pos] == Lexeme::Plus {
            Syntax::Plus { inner: Box::new(inner) }
        } else {
            Syntax::Minus { inner: Box::new(inner) }
        }
    } else {
        tree_of_leaf(toks, pos, p)
    }
}

/// The powers that were read.
proof fn tree_of_powers(
    lhs: Syntax,
    base: Terms,
    toks: Seq<Lexeme>,
    start: int,
    pos: int,
    p: int,
) -> (e: Syntax)
    requires
        all_unsigned(toks),
        spans(lhs, toks, start, pos),
        looseness(lhs) <= 2,
        power_rest(base, toks, pos, p) is Ok,
    ensures
        spans(e, toks, start, power_rest(base, toks, pos, p)->Ok_0.1),
        looseness(e) <= 2,
        ends_power(toks, power_rest(base, toks, pos, p)->Ok_0.1),
    decreases toks.len() - pos, 3int,
{
    if toks[pos] != Lexeme::Power {
        lhs
    } else {
        assert(exponent_at(toks, pos + 1, p) is Ok);
        assert(unary_at(toks, pos + 1, p) is Ok);
        let rhs = tree_of_unary(toks, pos + 1, p);
        let (exponent, next) = exponent_at(toks, pos + 1, p)->Ok_0;
        assert(next == unary_at(toks, pos + 1, p)->Ok_0.1);
        lemma_spans_operator(toks, start, pos, next);
        let e = Syntax::Power { lhs: Box::new(lhs), rhs: Box::new(rhs) };
        tree_of_powers(e, raised(base, exponent, p)->Ok_0, toks, start, next, p)
    }
}

/// The power that was read.
proof fn tree_of_power(toks: Seq<Lexeme>, pos: int, p: int) -> (e: Syntax)
    requires
        all_unsigned(toks),
        0 <= pos,
        power_at(toks, pos, p) is Ok,
    ensures
        spans(e, toks, pos, power_at(toks, pos, p)->Ok_0.1),
        looseness(e) <= 2,
        ends_power(toks, power_at(toks, pos, p)->Ok_0.1),
    decreases toks.len() - pos, 4int,
{
    let e = tree_of_unary(toks, pos, p);
    let (t, next) = unary_at(toks, pos, p)->Ok_0;
    tree_of_powers(e, t, toks, pos, next, p)
}

/// The products and quotients that were read.
proof fn tree_of_factors(
    lhs: Syntax,
    operand: Terms,
    toks: Seq<Lexeme>,
    start: int,
    pos: int,
    p: int,
) -> (e: Syntax)
    requires
        all_unsigned(toks),
        spans(lhs, toks, start, pos),
        looseness(lhs) <= 3,
        ends_power(toks, pos),
        product_rest(operand, toks, pos, p) is Ok,
    ensures
        spans(e, toks, start, product_rest(operand, toks, pos, p)->Ok_0.1),
        looseness(e) <= 3,
        ends_product(toks, product_rest(operand, toks, pos, p)->Ok_0.1),
    decreases toks.len() - pos, 5int,
{
    if toks[pos] != Lexeme::Multiply && toks[pos] != Lexeme::Divide {
        lhs
    } else {
        let rhs = tree_of_power(toks, pos + 1, p);
        let (t, next) = power_at(toks, pos + 1, p)->Ok_0;
        lemma_spans_operator(toks, start, pos, next);
        if toks[pos] == Lexeme::Multiply {
            let e = Syntax::Multiply { lhs: Box::new(lhs), rhs: Box::new(rhs) };
            tree_of_factors(e, multiplied(operand, t, p)->Ok_0, toks, start, next, p)
        } else {
            let e = Syntax::Divide { lhs: Box::new(lhs), rhs: Box::new(rhs) };
            tree_of_factors(e, divided(operand, t, p)->Ok_0, toks, start, next, p)
        }
    }
}

/// The product or quotient that was read.
proof fn tree_of_product(toks: Seq<Lexeme>, pos: int, p: int) -> (e: Syntax)
    requires
        all_unsigned(toks),
        0 <= pos,
        product_at(toks, pos, p) is Ok,
    ensures
        spans(e, toks, pos, product_at(toks, pos, p)->Ok_0.1),
        looseness(e) <= 3,
        ends_product(toks, product_at(toks, pos, p)->Ok_0.1),
    decreases toks.len() - pos, 6int,
{
    let e = tree_of_power(toks, pos, p);
    let (t, next) = power_at(toks, pos, p)->Ok_0;
    tree_of_factors(e, t, toks, pos, next, p)
}

/// The sums and differences that were read.
proof fn tree_of_summands(
    lhs: Syntax,
    operand: Terms,
    toks: Seq<Lexeme>,
    start: int,
    pos: int,
    p: int,
) -> (e: Syntax)
    requires
        all_unsigned(toks),
        spans(lhs, toks, start, pos),
        ends_product(toks, pos),
        sum_rest(operand, toks, pos, p) is Ok,
    ensures
        spans(e, toks, start, sum_rest(operand, toks, pos, p)->Ok_0.1),
        ends_sum(toks, sum_rest(operand, toks, pos, p)->Ok_0.1),
    decreases toks.len() - pos, 7int,
{
    if toks[pos] != Lexeme::Plus && toks[pos] != Lexeme::Minus {
        lhs
    } else {
        let rhs = tree_of_product(toks, pos + 1, p);
        let (t, next) = product_at(toks, pos + 1, p)->Ok_0;
        lemma_spans_operator(toks, start, pos, next);
        if toks[pos] == Lexeme::Plus {
            let e = Syntax::Add { lhs: Box::new(lhs), rhs: Box::new(rhs) };
            tree_of_summands(e, normal_form(operand + t, p), toks, start, next, p)
        } else {
            let e = Syntax::Subtract { lhs: Box::new(lhs), rhs: Box::new(rhs) };
            tree_of_summands(e, normal_form(operand + opposite(t), p), toks, start, next, p)
        }
    }
}

/// The sum or difference that was read.
pub proof fn tree_of_sum(toks: Seq<Lexeme>, pos: int, p: int) -> (e: Syntax)
    requires
        all_unsigned(toks),
        0 <= pos,
        sum_at(toks, pos, p) is Ok,
    ensures
        well_grouped(e),
        pos < sum_at(toks, pos, p)->Ok_0.1 < toks.len(),
        written(e) == toks.subrange(pos, sum_at(toks, pos, p)->Ok_0.1),
        ends_sum(toks, sum_at(toks, pos, p)->Ok_0.1),
    decreases toks.len() - pos, 8int,
{
    let e = tree_of_product(toks, pos, p);
    let (t, next) = product_at(toks, pos, p)->Ok_0;
    tree_of_summands(e, t, toks, pos, next, p)
}

/// Two expressions with an equality sign between them, up to the end of the input.
pub open spec fn equation(lhs: Syntax, rhs: Syntax) -> Seq<Lexeme> {
    written(lhs) + seq![Lexeme::Equal] + written(rhs) + seq![Lexeme::EndOfInput]
}

/// What is read as a constraint are two expressions with an equality sign between them, up to the end
/// of the input.
pub proof fn law_constraints_are_equations(toks: Seq<Lexeme>, p: int)
    requires
        all_unsigned(toks),
        parse_spec(toks, p) is Ok,
    ensures
        exists|lhs: Syntax, rhs: Syntax|
            {
                &&& well_grouped(lhs)
                &&& well_grouped(rhs)
                &&& #[trigger] equation(lhs, rhs).is_prefix_of(toks)
            },
{
    let lhs = tree_of_sum(toks, 0, p);
    let mid = sum_at(toks, 0, p)->Ok_0.1;
    assert(expect(toks, mid, Lexeme::Equal) is Ok);
    assert(sum_at(toks, mid + 1, p) is Ok);
    let rhs = tree_of_sum(toks, mid + 1, p);
    let end = sum_at(toks, mid + 1, p)->Ok_0.1;
    assert(equality_at(toks, 0, p) is Ok && equality_at(toks, 0, p)->Ok_0.1 == end);
    assert(expect(toks, end, Lexeme::EndOfInput) is Ok);
    assert(equation(lhs, rhs) =~= toks.subrange(0, end + 1));
    assert(equation(lhs, rhs).is_prefix_of(toks));
}

} // verus!
