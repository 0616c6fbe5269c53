//! Laws about the textual representation of constraint expressions.
use crate::algebra::{lemma_power_single, mono_pow};
use crate::arith::{is_inverse, lemma_inverse_unique, lemma_small, mod_pow};
use crate::expr::{const_terms, power_fits, product_fits, signed_power_terms, var_terms};
use crate::field::{decimal, digit_char, digit_value, is_numeral, numeral_value, Field, Scalar};
use crate::lexer::{
    is_space, is_word_char, scan, symbol_at, word_end, word_lexeme, Lexeme, LexerError,
};
use crate::monomial::{exponents_fit, fits_isize};
use crate::parser::{
    constant_of, equality_at, expect, exponent_at, expression_of, leaf_at, lemma_normal_form_unique,
    multiplied, normal_form, opposite, power_at, power_rest, product_at, product_rest, raised,
    rotation_at, sum_at, sum_rest, unary_at, variable_at, ExpressionFault, ParserFault,
};
use crate::terms::{
    coeff, exponent, lemma_coeff_bounds, lemma_coeff_single, lemma_exponent_concat,
    lemma_mono_mul_exponent, lemma_mono_mul_wf, lemma_mono_unique, mono_mul, mono_wf, product_terms,
    scale_terms, terms_wf, Mono, Terms,
};
use crate::text::{
    coefficient_text, expression_text, factor_text, factor_texts, join, signed_decimal, term_text,
    term_texts, variable_text,
};
use crate::utils::signed_value;
use crate::variable::Variable;
use vstd::prelude::*;
use vstd::string::*;

verus! {

/// Reading a text behind another one.
proof fn lemma_word_end_shift(a: Seq<char>, b: Seq<char>, i: int)
    requires
        0 <= i <= b.len(),
    ensures
        word_end(a + b, a.len() + i) == a.len() + word_end(b, i),
    decreases b.len() - i,
{
    if i < b.len() && is_word_char(b[i]) {
        assert((a + b)[a.len() + i] == b[i]);
        lemma_word_end_shift(a, b, i + 1);
    } else if i < b.len() {
        assert((a + b)[a.len() + i] == b[i]);
    }
}

/// Words end in the text.
pub proof fn lemma_word_end_bounds(s: Seq<char>, i: int)
    requires
        0 <= i <= s.len(),
    ensures
        i <= word_end(s, i) <= s.len(),
    decreases s.len() - i,
{
    if i < s.len() && is_word_char(s[i]) {
        lemma_word_end_bounds(s, i + 1);
    }
}

/// The tokens of a text do not depend on what stands before it.
pub proof fn lemma_scan_shift(a: Seq<char>, b: Seq<char>, i: int)
    requires
        0 <= i <= b.len(),
    ensures
        scan(a + b, a.len() + i) == scan(b, i),
    decreases b.len() - i,
{
    let s = a + b;
    let k = a.len() + i;
    if i < b.len() {
        assert(s[k] == b[i]);
        if is_space(b[i]) {
            lemma_scan_shift(a, b, i + 1);
        } else if is_word_char(b[i]) {
            lemma_word_end_shift(a, b, i);
            lemma_word_end_bounds(b, i + 1);
            let e = word_end(b, i);
            assert(s.subrange(k, a.len() + e) =~= b.subrange(i, e));
            lemma_scan_shift(a, b, e);
        } else {
            if i + 1 < b.len() {
                assert(s[k + 1] == b[i + 1]);
            }
            match symbol_at(b, i) {
                Some((_, next)) => {
                    lemma_scan_shift(a, b, next);
                },
                None => {},
            }
        }
    }
}

/// Tokens in front of others.
spec fn extend(before: Seq<Lexeme>, rest: Result<Seq<Lexeme>, LexerError>) -> Result<
    Seq<Lexeme>,
    LexerError,
> {
    match rest {
        Ok(lexemes) => Ok(before + lexemes),
        Err(error) => Err(error),
    }
}

/// Words end where the text starts.
spec fn stops(rest: Seq<char>) -> bool {
    rest.len() == 0 || !is_word_char(rest[0])
}

/// The text consists of the given tokens, wherever it is followed by something that is not part of
/// a word.
spec fn lexes_to(text: Seq<char>, tokens: Seq<Lexeme>) -> bool {
    forall|rest: Seq<char>|
        stops(rest) ==> #[trigger] scan(text + rest, 0) == extend(tokens, scan(rest, 0))
}

/// The text consists of the given tokens, whatever follows it.
spec fn lexes_always(text: Seq<char>, tokens: Seq<Lexeme>) -> bool {
    forall|rest: Seq<char>| #[trigger] scan(text + rest, 0) == extend(tokens, scan(rest, 0))
}

/// Two texts after one another, of which the first can be followed by anything.
proof fn lemma_lexes_concat(a: Seq<char>, x: Seq<Lexeme>, b: Seq<char>, y: Seq<Lexeme>)
    requires
        lexes_always(a, x),
    ensures
        lexes_to(b, y) ==> lexes_to(a + b, x + y),
        lexes_always(b, y) ==> lexes_always(a + b, x + y),
{
    assert forall|rest: Seq<char>|
        scan(b + rest, 0) == extend(y, scan(rest, 0)) implies #[trigger] scan(a + b + rest, 0)
        == extend(x + y, scan(rest, 0)) by {
        assert(a + b + rest =~= a + (b + rest));
        assert(scan(a + (b + rest), 0) == extend(x, scan(b + rest, 0)));
        match scan(rest, 0) {
            Ok(lexemes) => {
                assert(x + (y + lexemes) =~= (x + y) + lexemes);
            },
            Err(_) => {},
        }
    }
}

/// Two texts after one another, of which the second does not start with a part of a word.
proof fn lemma_lexes_stopped(a: Seq<char>, x: Seq<Lexeme>, b: Seq<char>, y: Seq<Lexeme>)
    requires
        lexes_to(a, x),
        b.len() > 0,
        stops(b),
    ensures
        lexes_to(b, y) ==> lexes_to(a + b, x + y),
        lexes_always(b, y) ==> lexes_always(a + b, x + y),
{
    assert forall|rest: Seq<char>|
        scan(b + rest, 0) == extend(y, scan(rest, 0)) implies #[trigger] scan(a + b + rest, 0)
        == extend(x + y, scan(rest, 0)) by {
        assert(a + b + rest =~= a + (b + rest));
        assert(stops(b + rest));
        assert(scan(a + (b + rest), 0) == extend(x, scan(b + rest, 0)));
        match scan(rest, 0) {
            Ok(lexemes) => {
                assert(x + (y + lexemes) =~= (x + y) + lexemes);
            },
            Err(_) => {},
        }
    }
}

/// A symbol of one character.
proof fn lemma_lexes_symbol(c: char, lexeme: Lexeme)
    requires
        !is_space(c),
        !is_word_char(c),
        forall|s: Seq<char>|
            s.len() > 0 && s[0] == c ==> #[trigger] symbol_at(s, 0) == Some((lexeme, 1int)),
    ensures
        lexes_always(seq![c], seq![lexeme]),
{
    assert forall|rest: Seq<char>| #[trigger]
        scan(seq![c] + rest, 0) == extend(seq![lexeme], scan(rest, 0)) by {
        let s = seq![c] + rest;
        assert(s[0] == c);
        assert(symbol_at(s, 0) == Some((lexeme, 1int)));
        lemma_scan_shift(seq![c], rest, 0);
        assert(scan(s, 1) == scan(rest, 0));
    }
}

/// Whitespace.
proof fn lemma_lexes_space(c: char)
    requires
        is_space(c),
    ensures
        lexes_always(seq![c], seq![]),
{
    assert forall|rest: Seq<char>| #[trigger]
        scan(seq![c] + rest, 0) == extend(seq![], scan(rest, 0)) by {
        let s = seq![c] + rest;
        assert(s[0] == c);
        lemma_scan_shift(seq![c], rest, 0);
        assert(scan(s, 1) == scan(rest, 0));
        match scan(rest, 0) {
            Ok(lexemes) => {
                assert(Seq::<Lexeme>::empty() + lexemes =~= lexemes);
            },
            Err(_) => {},
        }
    }
}

/// The end of a word.
pub proof fn lemma_word_end_at(s: Seq<char>, i: int, e: int)
    requires
        0 <= i <= e <= s.len(),
        forall|k: int| i <= k < e ==> is_word_char(#[trigger] s[k]),
        e < s.len() ==> !is_word_char(s[e]),
    ensures
        word_end(s, i) == e,
    decreases e - i,
{
    if i < e {
        lemma_word_end_at(s, i + 1, e);
    }
}

/// A word.
proof fn lemma_lexes_word(word: Seq<char>, lexeme: Lexeme)
    requires
        word.len() > 0,
        forall|k: int| 0 <= k < word.len() ==> is_word_char(#[trigger] word[k]),
        word_lexeme(word) == Ok::<Lexeme, LexerError>(lexeme),
    ensures
        lexes_to(word, seq![lexeme]),
{
    assert forall|rest: Seq<char>| stops(rest) implies #[trigger] scan(word + rest, 0) == extend(
        seq![lexeme],
        scan(rest, 0),
    ) by {
        let s = word + rest;
        let e = word.len() as int;
        assert forall|k: int| 0 <= k < e implies is_word_char(#[trigger] s[k]) by {
            assert(s[k] == word[k]);
        }
        if e < s.len() {
            assert(s[e] == rest[0]);
        }
        lemma_word_end_at(s, 0, e);
        assert(s.subrange(0, e) =~= word);
        assert(is_word_char(s[0]));
        assert(!is_space(s[0]));
        lemma_scan_shift(word, rest, 0);
    }
}

/// The digits of a number in decimal notation.
pub proof fn lemma_decimal(n: nat)
    ensures
        decimal(n).len() > 0,
        is_numeral(decimal(n), 10),
        numeral_value(decimal(n), 10) == n,
        forall|k: int| 0 <= k < decimal(n).len() ==> '0' <= #[trigger] decimal(n)[k] <= '9',
        decimal(n).len() >= 2 ==> decimal(n)[0] != '0',
        n > 0 ==> decimal(n)[0] != '0',
    decreases n,
{
    let s = decimal(n);
    lemma_digit_char(n as int % 10);
    if n < 10 {
        lemma_digit_char(n as int);
        assert(s.drop_last() =~= seq![]);
        reveal_with_fuel(numeral_value, 2);
        assert(s.last() == digit_char(n as int));
    } else {
        lemma_decimal(n / 10);
        assert(s.drop_last() =~= decimal(n / 10));
        assert(s.last() == digit_char((n % 10) as int));
        assert forall|k: int| 0 <= k < s.len() implies '0' <= #[trigger] s[k] <= '9' && 0
            <= digit_value(s[k]) < 10 by {
            if k < s.len() - 1 {
                assert(s[k] == decimal(n / 10)[k]);
            }
        }
        assert(s[0] == decimal(n / 10)[0]);
    }
}

/// The value of a digit.
proof fn lemma_digit_char(d: int)
    requires
        0 <= d < 10,
    ensures
        '0' <= digit_char(d) <= '9',
        digit_value(digit_char(d)) == d,
        d > 0 ==> digit_char(d) != '0',
{
}

/// A number in decimal notation.
proof fn lemma_lexes_decimal(n: nat)
    requires
        n < Scalar::modulus(),
    ensures
        lexes_to(decimal(n), seq![Lexeme::Number10(n as int)]),
        decimal(n).len() > 0,
{
    let s = decimal(n);
    lemma_decimal(n);
    assert forall|k: int| 0 <= k < s.len() implies is_word_char(#[trigger] s[k]) by {
        assert('0' <= s[k] <= '9');
    }
    assert('0' <= s[0] <= '9');
    assert(word_lexeme(s) == Ok::<Lexeme, LexerError>(Lexeme::Number10(n as int)));
    lemma_lexes_word(s, Lexeme::Number10(n as int));
}

/// The tokens of a variable.
pub open spec fn variable_tokens(v: Variable) -> Seq<Lexeme> {
    let start = seq![
        Lexeme::Identifier("var"@),
        Lexeme::LeftBracket,
        Lexeme::Number10(v.column_index as int),
    ];
    if v.rotation < 0 {
        start + seq![
            Lexeme::Comma,
            Lexeme::Minus,
            Lexeme::Number10(-v.rotation),
            Lexeme::RightBracket,
        ]
    } else if v.rotation > 0 {
        start + seq![
            Lexeme::Comma,
            Lexeme::Plus,
            Lexeme::Number10(v.rotation as int),
            Lexeme::RightBracket,
        ]
    } else {
        start + seq![Lexeme::RightBracket]
    }
}

/// The tokens of a signed number.
pub open spec fn signed_tokens(n: int) -> Seq<Lexeme> {
    if n < 0 {
        seq![Lexeme::Minus, Lexeme::Number10(-n)]
    } else {
        seq![Lexeme::Number10(n)]
    }
}

/// The tokens of a variable raised to a power.
pub open spec fn factor_tokens(f: (Variable, int)) -> Seq<Lexeme> {
    if f.1 == 1 {
        variable_tokens(f.0)
    } else {
        variable_tokens(f.0) + seq![Lexeme::Power] + signed_tokens(f.1)
    }
}

/// The tokens of a coefficient.
pub open spec fn coefficient_tokens(c: int, p: int) -> Seq<Lexeme> {
    if c > (p - 1) / 2 {
        signed_tokens(c - p)
    } else {
        signed_tokens(c)
    }
}

/// Lists of tokens with a token between them.
pub open spec fn join_tokens(parts: Seq<Seq<Lexeme>>, separator: Lexeme) -> Seq<Lexeme>
    decreases parts.len(),
{
    if parts.len() == 0 {
        seq![]
    } else if parts.len() == 1 {
        parts[0]
    } else {
        join_tokens(parts.drop_last(), separator) + seq![separator] + parts.last()
    }
}

/// The tokens of the factors of a monomial.
pub open spec fn factor_token_lists(m: Mono) -> Seq<Seq<Lexeme>> {
    Seq::new(m.len(), |i: int| factor_tokens(m[i]))
}

/// The tokens of the operands of a monomial with its coefficient.
pub open spec fn operand_tokens(x: (Mono, int), p: int) -> Seq<Seq<Lexeme>> {
    if x.0.len() > 0 && x.1 == 1 {
        factor_token_lists(x.0)
    } else {
        seq![coefficient_tokens(x.1, p)] + factor_token_lists(x.0)
    }
}

/// The tokens of a monomial with its coefficient.
pub open spec fn term_tokens(x: (Mono, int), p: int) -> Seq<Lexeme> {
    join_tokens(operand_tokens(x, p), Lexeme::Multiply)
}

/// The tokens of the monomials of a sum.
pub open spec fn term_token_lists(t: Terms, p: int) -> Seq<Seq<Lexeme>> {
    Seq::new(t.len(), |i: int| term_tokens(t[i], p))
}

/// The tokens of a sum.
pub open spec fn expression_tokens(t: Terms, p: int) -> Seq<Lexeme> {
    if t.len() == 0 {
        seq![Lexeme::Number10(0)]
    } else {
        join_tokens(term_token_lists(t, p), Lexeme::Plus)
    }
}

/// The symbols.
proof fn lemma_symbols()
    ensures
        lexes_always("("@, seq![Lexeme::LeftBracket]),
        lexes_always(")"@, seq![Lexeme::RightBracket]),
        lexes_always("-"@, seq![Lexeme::Minus]),
        lexes_always(","@, seq![Lexeme::Comma]),
        lexes_always("+"@, seq![Lexeme::Plus]),
        lexes_always("*"@, seq![Lexeme::Multiply]),
        lexes_always("^"@, seq![Lexeme::Power]),
        lexes_always(" "@, seq![]),
{
    reveal_strlit("(");
    reveal_strlit(")");
    reveal_strlit("-");
    reveal_strlit(",");
    reveal_strlit("+");
    reveal_strlit("*");
    reveal_strlit("^");
    reveal_strlit(" ");
    assert("("@ =~= seq!['(']);
    assert(")"@ =~= seq![')']);
    assert("-"@ =~= seq!['-']);
    assert(","@ =~= seq![',']);
    assert("+"@ =~= seq!['+']);
    assert("*"@ =~= seq!['*']);
    assert("^"@ =~= seq!['^']);
    assert(" "@ =~= seq![' ']);
    lemma_lexes_symbol('(', Lexeme::LeftBracket);
    lemma_lexes_symbol(')', Lexeme::RightBracket);
    lemma_lexes_symbol('-', Lexeme::Minus);
    lemma_lexes_symbol(',', Lexeme::Comma);
    lemma_lexes_symbol('+', Lexeme::Plus);
    lemma_lexes_symbol('*', Lexeme::Multiply);
    lemma_lexes_symbol('^', Lexeme::Power);
    lemma_lexes_space(' ');
}

/// The texts that are made of several symbols.
proof fn lemma_separators()
    ensures
        lexes_always("var("@, seq![Lexeme::Identifier("var"@), Lexeme::LeftBracket]),
        lexes_always(",-"@, seq![Lexeme::Comma, Lexeme::Minus]),
        lexes_always(",+"@, seq![Lexeme::Comma, Lexeme::Plus]),
        lexes_always(" ^ "@, seq![Lexeme::Power]),
        lexes_always(" * "@, seq![Lexeme::Multiply]),
        lexes_always(" + "@, seq![Lexeme::Plus]),
        stops(",-"@) && ",-"@.len() > 0,
        stops(",+"@) && ",+"@.len() > 0,
        stops(")"@) && ")"@.len() > 0,
        stops(" ^ "@) && " ^ "@.len() > 0,
        stops(" * "@) && " * "@.len() > 0,
        stops(" + "@) && " + "@.len() > 0,
{
    lemma_symbols();
    reveal_strlit("(");
    reveal_strlit(")");
    reveal_strlit("-");
    reveal_strlit(",");
    reveal_strlit("+");
    reveal_strlit("*");
    reveal_strlit("^");
    reveal_strlit(" ");
    reveal_strlit("var");
    reveal_strlit("var(");
    reveal_strlit(",-");
    reveal_strlit(",+");
    reveal_strlit(" ^ ");
    reveal_strlit(" * ");
    reveal_strlit(" + ");
    let word = "var"@;
    assert(word.len() == 3 && word[0] == 'v' && word[1] == 'a' && word[2] == 'r');
    lemma_lexes_word(word, Lexeme::Identifier(word));
    lemma_lexes_stopped(
        word,
        seq![Lexeme::Identifier(word)],
        "("@,
        seq![Lexeme::LeftBracket],
    );
    assert("var("@ =~= word + "("@);
    assert(seq![Lexeme::Identifier(word), Lexeme::LeftBracket] =~= seq![Lexeme::Identifier(word)]
        + seq![Lexeme::LeftBracket]);
    lemma_lexes_concat(","@, seq![Lexeme::Comma], "-"@, seq![Lexeme::Minus]);
    assert(",-"@ =~= ","@ + "-"@);
    assert(seq![Lexeme::Comma, Lexeme::Minus] =~= seq![Lexeme::Comma] + seq![Lexeme::Minus]);
    lemma_lexes_concat(","@, seq![Lexeme::Comma], "+"@, seq![Lexeme::Plus]);
    assert(",+"@ =~= ","@ + "+"@);
    assert(seq![Lexeme::Comma, Lexeme::Plus] =~= seq![Lexeme::Comma] + seq![Lexeme::Plus]);
    lemma_lexes_spaced("^"@, Lexeme::Power);
    assert(" ^ "@ =~= " "@ + "^"@ + " "@);
    lemma_lexes_spaced("*"@, Lexeme::Multiply);
    assert(" * "@ =~= " "@ + "*"@ + " "@);
    lemma_lexes_spaced("+"@, Lexeme::Plus);
    assert(" + "@ =~= " "@ + "+"@ + " "@);
}

/// A symbol between spaces.
proof fn lemma_lexes_spaced(text: Seq<char>, lexeme: Lexeme)
    requires
        lexes_always(text, seq![lexeme]),
        lexes_always(" "@, seq![]),
    ensures
        lexes_always(" "@ + text + " "@, seq![lexeme]),
{
    lemma_lexes_concat(" "@, seq![], text, seq![lexeme]);
    lemma_lexes_concat(" "@ + text, seq![] + seq![lexeme], " "@, seq![]);
    assert(seq![] + seq![lexeme] + seq![] =~= seq![lexeme]);
}

/// The text of a variable.
proof fn lemma_lexes_variable(v: Variable)
    ensures
        lexes_always(variable_text(v), variable_tokens(v)),
{
    lemma_symbols();
    lemma_separators();
    Scalar::lemma_modulus();
    let head = seq![Lexeme::Identifier("var"@), Lexeme::LeftBracket];
    let number = seq![Lexeme::Number10(v.column_index as int)];
    let d = decimal(v.column_index as nat);
    lemma_lexes_decimal(v.column_index as nat);
    lemma_lexes_concat("var("@, head, d, number);
    let start = "var("@ + d;
    let close = seq![Lexeme::RightBracket];
    if v.rotation == 0 {
        lemma_lexes_stopped(start, head + number, ")"@, close);
        assert(head + number + close =~= variable_tokens(v));
    } else {
        let (n, sign, symbols) = if v.rotation < 0 {
            ((-v.rotation) as nat, ",-"@, seq![Lexeme::Comma, Lexeme::Minus])
        } else {
            (v.rotation as nat, ",+"@, seq![Lexeme::Comma, Lexeme::Plus])
        };
        let r = seq![Lexeme::Number10(n as int)];
        lemma_lexes_stopped(start, head + number, sign, symbols);
        lemma_lexes_decimal(n);
        lemma_lexes_concat(start + sign, head + number + symbols, decimal(n), r);
        lemma_lexes_stopped(
            start + sign + decimal(n),
            head + number + symbols + r,
            ")"@,
            close,
        );
        assert(head + number + symbols + r + close =~= variable_tokens(v));
    }
}

/// The text of a signed number.
proof fn lemma_lexes_signed(n: int)
    requires
        -Scalar::modulus() < n < Scalar::modulus(),
    ensures
        lexes_to(signed_decimal(n), signed_tokens(n)),
{
    lemma_symbols();
    if n < 0 {
        let d = (-n) as nat;
        lemma_lexes_decimal(d);
        lemma_lexes_concat(
            "-"@,
            seq![Lexeme::Minus],
            decimal(d),
            seq![Lexeme::Number10(d as int)],
        );
        assert(seq![Lexeme::Minus] + seq![Lexeme::Number10(d as int)] =~= signed_tokens(n));
    } else {
        lemma_lexes_decimal(n as nat);
    }
}

/// The text of a variable raised to a power.
proof fn lemma_lexes_factor(f: (Variable, int))
    requires
        isize::MIN <= f.1 <= isize::MAX,
    ensures
        lexes_to(factor_text(f), factor_tokens(f)),
{
    lemma_separators();
    Scalar::lemma_modulus();
    lemma_lexes_variable(f.0);
    if f.1 != 1 {
        lemma_lexes_signed(f.1);
        lemma_lexes_concat(variable_text(f.0), variable_tokens(f.0), " ^ "@, seq![Lexeme::Power]);
        lemma_lexes_concat(
            variable_text(f.0) + " ^ "@,
            variable_tokens(f.0) + seq![Lexeme::Power],
            signed_decimal(f.1),
            signed_tokens(f.1),
        );
    }
}

/// The text of a coefficient.
proof fn lemma_lexes_coefficient(c: int)
    requires
        0 <= c < Scalar::modulus(),
    ensures
        lexes_to(
            coefficient_text(c, Scalar::modulus()),
            coefficient_tokens(c, Scalar::modulus()),
        ),
{
    let p = Scalar::modulus();
    Scalar::lemma_modulus();
    if c > (p - 1) / 2 {
        lemma_lexes_signed(c - p);
        assert(coefficient_text(c, p) == signed_decimal(c - p));
    } else {
        lemma_lexes_signed(c);
    }
}

/// Texts with a separator between them.
proof fn lemma_lexes_join(
    parts: Seq<Seq<char>>,
    tokens: Seq<Seq<Lexeme>>,
    separator: Seq<char>,
    lexeme: Lexeme,
)
    requires
        parts.len() == tokens.len(),
        parts.len() > 0,
        forall|i: int| 0 <= i < parts.len() ==> lexes_to(#[trigger] parts[i], tokens[i]),
        lexes_always(separator, seq![lexeme]),
        stops(separator),
        separator.len() > 0,
    ensures
        lexes_to(join(parts, separator), join_tokens(tokens, lexeme)),
    decreases parts.len(),
{
    if parts.len() == 1 {
        assert(lexes_to(parts[0], tokens[0]));
    } else {
        let (a, b) = (parts.drop_last(), tokens.drop_last());
        assert forall|i: int| 0 <= i < a.len() implies lexes_to(#[trigger] a[i], b[i]) by {
            assert(a[i] == parts[i] && b[i] == tokens[i]);
        }
        lemma_lexes_join(a, b, separator, lexeme);
        let k = parts.len() - 1;
        assert(lexes_to(parts[k], tokens[k]));
        lemma_lexes_stopped(join(a, separator), join_tokens(b, lexeme), separator, seq![lexeme]);
        lemma_lexes_concat(
            join(a, separator) + separator,
            join_tokens(b, lexeme) + seq![lexeme],
            parts.last(),
            tokens.last(),
        );
    }
}

/// The exponents of the terms are in range, and so are the coefficients.
pub open spec fn printable(t: Terms, p: int) -> bool {
    &&& forall|i: int| 0 <= i < t.len() ==> 0 < (#[trigger] t[i]).1 < p
    &&& forall|i: int, j: int|
        0 <= i < t.len() && 0 <= j < t[i].0.len() ==> isize::MIN <= (#[trigger] t[i].0[j]).1
            <= isize::MAX
}

/// The text of a term.
proof fn lemma_lexes_term(x: (Mono, int))
    requires
        0 < x.1 < Scalar::modulus(),
        forall|j: int| 0 <= j < x.0.len() ==> isize::MIN <= (#[trigger] x.0[j]).1 <= isize::MAX,
    ensures
        lexes_to(term_text(x, Scalar::modulus()), term_tokens(x, Scalar::modulus())),
{
    let p = Scalar::modulus();
    lemma_separators();
    lemma_lexes_coefficient(x.1);
    let (texts, tokens) = (factor_texts(x.0), factor_token_lists(x.0));
    assert forall|i: int| 0 <= i < texts.len() implies lexes_to(#[trigger] texts[i], tokens[i]) by {
        lemma_lexes_factor(x.0[i]);
    }
    let (all, list) = (
        seq![coefficient_text(x.1, p)] + texts,
        seq![coefficient_tokens(x.1, p)] + tokens,
    );
    if x.0.len() == 0 {
        assert(operand_tokens(x, p) =~= seq![coefficient_tokens(x.1, p)]);
    } else if x.1 == 1 {
        lemma_lexes_join(texts, tokens, " * "@, Lexeme::Multiply);
    } else {
        assert forall|i: int| 0 <= i < all.len() implies lexes_to(#[trigger] all[i], list[i]) by {
            if i > 0 {
                assert(lexes_to(texts[i - 1], tokens[i - 1]));
            }
        }
        lemma_lexes_join(all, list, " * "@, Lexeme::Multiply);
    }
}

/// The text of an expression.
proof fn lemma_lexes_expression(t: Terms)
    requires
        printable(t, Scalar::modulus()),
    ensures
        lexes_to(
            expression_text(t, Scalar::modulus()),
            expression_tokens(t, Scalar::modulus()),
        ),
{
    let p = Scalar::modulus();
    Scalar::lemma_modulus();
    lemma_separators();
    if t.len() == 0 {
        lemma_lexes_decimal(0);
        reveal_strlit("0");
        assert("0"@ =~= decimal(0));
    } else {
        let (texts, tokens) = (term_texts(t, p), term_token_lists(t, p));
        assert forall|i: int| 0 <= i < texts.len() implies lexes_to(#[trigger] texts[i], tokens[i]) by {
            assert(0 < t[i].1 < p);
            assert forall|j: int| 0 <= j < t[i].0.len() implies isize::MIN <= (
            #[trigger] t[i].0[j]).1 <= isize::MAX by {}
            lemma_lexes_term(t[i]);
        }
        lemma_lexes_join(texts, tokens, " + "@, Lexeme::Plus);
    }
}

/// The tokens stand at the given position.
pub open spec fn stand_at(toks: Seq<Lexeme>, pos: int, part: Seq<Lexeme>) -> bool {
    &&& 0 <= pos
    &&& pos + part.len() <= toks.len()
    &&& forall|i: int| 0 <= i < part.len() ==> toks[pos + i] == #[trigger] part[i]
}

/// The token at the position does not continue a power.
pub open spec fn ends_power(toks: Seq<Lexeme>, pos: int) -> bool {
    0 <= pos < toks.len() && toks[pos] != Lexeme::Power
}

/// The token at the position does not continue a product.
pub open spec fn ends_product(toks: Seq<Lexeme>, pos: int) -> bool {
    ends_power(toks, pos) && toks[pos] != Lexeme::Multiply && toks[pos] != Lexeme::Divide
}

/// The token at the position does not continue a sum.
pub open spec fn ends_sum(toks: Seq<Lexeme>, pos: int) -> bool {
    ends_product(toks, pos) && toks[pos] != Lexeme::Plus && toks[pos] != Lexeme::Minus
}

/// The parts of tokens that stand at a position.
pub proof fn lemma_stand_split(toks: Seq<Lexeme>, pos: int, a: Seq<Lexeme>, b: Seq<Lexeme>)
    requires
        stand_at(toks, pos, a + b),
    ensures
        stand_at(toks, pos, a),
        stand_at(toks, pos + a.len(), b),
{
    let c = a + b;
    assert forall|i: int| 0 <= i < a.len() implies toks[pos + i] == #[trigger] a[i] by {
        assert(c[i] == a[i]);
    }
    assert forall|i: int| 0 <= i < b.len() implies toks[pos + a.len() + i] == #[trigger] b[i] by {
        assert(c[a.len() + i] == b[i]);
        assert(toks[pos + (a.len() + i)] == c[a.len() + i]);
    }
}

/// Expressions in normal form are their own normal forms.
proof fn lemma_own_normal_form(t: Terms, p: int)
    requires
        p > 0,
        terms_wf(t, p),
    ensures
        normal_form(t, p) == t,
{
    assert forall|m: Mono| #[trigger] coeff(t, m) == coeff(t, m) % p by {
        lemma_coeff_bounds(t, m, p);
        lemma_small(coeff(t, m), p);
    }
    lemma_normal_form_unique(t, t, p);
}

/// A single term is in normal form.
proof fn lemma_single_wf(m: Mono, c: int, p: int)
    requires
        mono_wf(m),
        0 < c < p,
    ensures
        terms_wf(seq![(m, c)], p),
{
}

/// The normal form of a single term.
proof fn lemma_single_normal_form(m: Mono, c: int, d: int, p: int)
    requires
        p > 0,
        mono_wf(m),
        0 < d < p,
        c % p == d,
    ensures
        normal_form(seq![(m, c)], p) == seq![(m, d)],
{
    lemma_single_wf(m, d, p);
    lemma_small(0, p);
    assert forall|k: Mono| #[trigger] coeff(seq![(m, d)], k) == coeff(seq![(m, c)], k) % p by {
        lemma_coeff_single((m, d), k);
        lemma_coeff_single((m, c), k);
    }
    lemma_normal_form_unique(seq![(m, d)], seq![(m, c)], p);
}

/// A number.
proof fn lemma_parse_number(toks: Seq<Lexeme>, pos: int, n: int, p: int)
    requires
        0 <= pos < toks.len(),
        toks[pos] == Lexeme::Number10(n),
        0 <= n < p,
    ensures
        unary_at(toks, pos, p) == Ok::<(Terms, int), ParserFault>((const_terms(n), pos + 1)),
        ends_sum(toks, pos + 1) ==> sum_at(toks, pos, p) == Ok::<(Terms, int), ParserFault>(
            (const_terms(n), pos + 1),
        ),
{
    let t = const_terms(n);
    assert(leaf_at(toks, pos, p) == Ok::<(Terms, int), ParserFault>((t, pos + 1)));
    assert(unary_at(toks, pos, p) == Ok::<(Terms, int), ParserFault>((t, pos + 1)));
    if ends_sum(toks, pos + 1) {
        assert(power_rest(t, toks, pos + 1, p) == Ok::<(Terms, int), ParserFault>((t, pos + 1)));
        assert(power_at(toks, pos, p) == Ok::<(Terms, int), ParserFault>((t, pos + 1)));
        assert(product_rest(t, toks, pos + 1, p) == Ok::<(Terms, int), ParserFault>((t, pos + 1)));
        assert(product_at(toks, pos, p) == Ok::<(Terms, int), ParserFault>((t, pos + 1)));
        assert(sum_rest(t, toks, pos + 1, p) == Ok::<(Terms, int), ParserFault>((t, pos + 1)));
    }
}

/// A signed number.
proof fn lemma_parse_signed(toks: Seq<Lexeme>, pos: int, n: int, p: int)
    requires
        stand_at(toks, pos, signed_tokens(n)),
        -p < n < p,
        p > 1,
    ensures
        unary_at(toks, pos, p) == Ok::<(Terms, int), ParserFault>(
            (const_terms(n % p), pos + signed_tokens(n).len()),
        ),
{
    if n < 0 {
        let k = -n;
        assert(toks[pos + 0] == signed_tokens(n)[0]);
        assert(toks[pos + 1] == signed_tokens(n)[1]);
        lemma_parse_number(toks, pos + 1, k, p);
        assert(n % p == p - k) by (nonlinear_arith)
            requires
                n == -k,
                0 < k < p,
        ;
        let empty = Seq::<(Variable, int)>::empty();
        assert(opposite(const_terms(k)) =~= seq![(empty, n)]);
        lemma_single_normal_form(empty, n, p - k, p);
    } else {
        assert(toks[pos + 0] == signed_tokens(n)[0]);
        lemma_parse_number(toks, pos, n, p);
        lemma_small(n, p);
    }
}

/// The column index and the rotation of the variable can be read.
pub open spec fn readable(v: Variable) -> bool {
    v.column_index <= isize::MAX && v.rotation > isize::MIN
}

/// A rotation.
proof fn lemma_parse_rotation(toks: Seq<Lexeme>, pos: int, v: Variable)
    requires
        stand_at(toks, pos, variable_tokens(v)),
        readable(v),
    ensures
        rotation_at(toks, pos + 3, Scalar::modulus()) == Ok::<(int, int), ParserFault>(
            (v.rotation as int, pos + variable_tokens(v).len() - 1),
        ),
        toks[pos + variable_tokens(v).len() - 1] == Lexeme::RightBracket,
        ends_sum(toks, pos + 3),
{
    Scalar::lemma_modulus();
    let k = variable_tokens(v);
    assert(toks[pos + 3] == k[3]);
    if v.rotation != 0 {
        assert(k.len() == 7);
        assert(toks[pos + 4] == k[4]);
        assert(toks[pos + 5] == k[5]);
        assert(toks[pos + 6] == k[6]);
    } else {
        assert(k.len() == 4);
    }
}

/// A variable, once its parts have been read.
proof fn lemma_parse_brackets(toks: Seq<Lexeme>, pos: int, v: Variable, next: int, p: int)
    requires
        0 <= pos,
        pos + 3 <= next < toks.len(),
        p > 2 * isize::MAX + 2,
        toks[pos] == Lexeme::Identifier("var"@),
        toks[pos + 1] == Lexeme::LeftBracket,
        sum_at(toks, pos + 2, p) == Ok::<(Terms, int), ParserFault>(
            (const_terms(v.column_index as int), pos + 3),
        ),
        rotation_at(toks, pos + 3, p) == Ok::<(int, int), ParserFault>((v.rotation as int, next)),
        toks[next] == Lexeme::RightBracket,
        v.column_index <= isize::MAX,
    ensures
        unary_at(toks, pos, p) == Ok::<(Terms, int), ParserFault>((var_terms(v), next + 1)),
{
    let n = v.column_index as int;
    let t = const_terms(n);
    assert(constant_of(t) == Some(n));
    assert(signed_value(n, p) == n);
    let read = Variable { column_index: n as usize, rotation: v.rotation as int as isize };
    assert(read == v);
    assert(variable_at(toks, pos + 1, p) == Ok::<(Terms, int), ParserFault>(
        (var_terms(read), next + 1),
    ));
    assert(leaf_at(toks, pos, p) == Ok::<(Terms, int), ParserFault>((var_terms(v), next + 1)));
}

/// A variable.
proof fn lemma_parse_variable(toks: Seq<Lexeme>, pos: int, v: Variable)
    requires
        stand_at(toks, pos, variable_tokens(v)),
        readable(v),
    ensures
        unary_at(toks, pos, Scalar::modulus()) == Ok::<(Terms, int), ParserFault>(
            (var_terms(v), pos + variable_tokens(v).len()),
        ),
{
    let p = Scalar::modulus();
    Scalar::lemma_modulus();
    let k = variable_tokens(v);
    assert(k.len() >= 4);
    assert(toks[pos + 0] == k[0]);
    assert(toks[pos + 1] == k[1]);
    assert(toks[pos + 2] == k[2]);
    lemma_parse_rotation(toks, pos, v);
    lemma_parse_number(toks, pos + 2, v.column_index as int, p);
    lemma_parse_brackets(toks, pos, v, pos + k.len() - 1, p);
}

/// A variable raised to a power.
spec fn factor_terms(f: (Variable, int)) -> Terms {
    seq![(seq![f], 1int)]
}

/// Raising a variable to a power.
proof fn lemma_raise_variable(v: Variable, e: int, p: int)
    requires
        p > 1,
        e != 0,
        isize::MIN <= e <= isize::MAX,
    ensures
        raised(var_terms(v), e, p) == Ok::<Terms, ParserFault>(factor_terms((v, e))),
{
    let base = var_terms(v);
    let m = seq![(v, 1int)];
    assert(power_fits(base, e)) by {
        assert forall|i: int, j: int| 0 <= i < base.len() && 0 <= j < base[i].0.len() implies fits_isize(
            (#[trigger] base[i].0[j]).1 * e,
        ) by {
            assert(1 * e == e);
        }
    }
    assert(mono_pow(m, e) =~= seq![(v, e)]) by {
        assert(1 * e == e);
    }
    assert(mono_wf(seq![(v, e)]));
    assert(mono_wf(m));
    lemma_small(1, p);
    if e >= 0 {
        lemma_power_single(m, 1, e as nat);
        vstd::arithmetic::power::lemma1_pow(e as nat);
        lemma_single_normal_form(seq![(v, e)], 1, 1, p);
    } else {
        assert(is_inverse(1, 1, p));
        lemma_inverse_unique(1, 1, p);
        vstd::arithmetic::power::lemma1_pow((-e) as nat);
        assert(mod_pow(1, e, p) == 1);
        assert(signed_power_terms(base, e, p) =~= seq![(seq![(v, e)], 1int)]);
        lemma_single_normal_form(seq![(v, e)], 1, 1, p);
    }
}

/// An exponent.
proof fn lemma_parse_exponent(toks: Seq<Lexeme>, pos: int, e: int, p: int)
    requires
        stand_at(toks, pos, signed_tokens(e)),
        isize::MIN <= e <= isize::MAX,
        p > 2 * isize::MAX + 2,
    ensures
        exponent_at(toks, pos, p) == Ok::<(int, int), ParserFault>(
            (e, pos + signed_tokens(e).len()),
        ),
{
    lemma_parse_signed(toks, pos, e, p);
    if e < 0 {
        assert(e % p == p + e) by (nonlinear_arith)
            requires
                -p < e < 0,
        ;
    } else {
        lemma_small(e, p);
    }
    assert(constant_of(const_terms(e % p)) == Some(e % p));
    assert(signed_value(e % p, p) == e);
}

/// A power, once its parts have been read.
proof fn lemma_parse_power(
    toks: Seq<Lexeme>,
    pos: int,
    base: Terms,
    next: int,
    e: int,
    end: int,
    r: Terms,
    p: int,
)
    requires
        0 <= pos < next < end,
        ends_power(toks, end),
        unary_at(toks, pos, p) == Ok::<(Terms, int), ParserFault>((base, next)),
        toks[next] == Lexeme::Power,
        exponent_at(toks, next + 1, p) == Ok::<(int, int), ParserFault>((e, end)),
        raised(base, e, p) == Ok::<Terms, ParserFault>(r),
    ensures
        power_at(toks, pos, p) == Ok::<(Terms, int), ParserFault>((r, end)),
{
    assert(power_rest(r, toks, end, p) == Ok::<(Terms, int), ParserFault>((r, end)));
    assert(power_rest(base, toks, next, p) == Ok::<(Terms, int), ParserFault>((r, end)));
}

/// A factor.
proof fn lemma_parse_factor(toks: Seq<Lexeme>, pos: int, f: (Variable, int))
    requires
        stand_at(toks, pos, factor_tokens(f)),
        readable(f.0),
        f.1 != 0,
        isize::MIN <= f.1 <= isize::MAX,
        ends_power(toks, pos + factor_tokens(f).len()),
    ensures
        power_at(toks, pos, Scalar::modulus()) == Ok::<(Terms, int), ParserFault>(
            (factor_terms(f), pos + factor_tokens(f).len()),
        ),
{
    let p = Scalar::modulus();
    Scalar::lemma_modulus();
    let (v, e) = f;
    let start = variable_tokens(v);
    assert(start.len() > 0);
    let next = pos + start.len();
    if e == 1 {
        lemma_parse_variable(toks, pos, v);
        let t = var_terms(v);
        assert(power_rest(t, toks, next, p) == Ok::<(Terms, int), ParserFault>((t, next)));
    } else {
        let end = next + 1 + signed_tokens(e).len();
        assert(factor_tokens(f).len() == end - pos);
        lemma_stand_split(toks, pos, start + seq![Lexeme::Power], signed_tokens(e));
        lemma_stand_split(toks, pos, start, seq![Lexeme::Power]);
        lemma_parse_variable(toks, pos, v);
        assert(toks[next + 0] == seq![Lexeme::Power][0]);
        lemma_parse_exponent(toks, next + 1, e, p);
        lemma_raise_variable(v, e, p);
        lemma_parse_power(toks, pos, var_terms(v), next, e, end, factor_terms(f), p);
    }
}

/// The lists from number `k` on, each after a separator.
spec fn tail_tokens(parts: Seq<Seq<Lexeme>>, k: int, separator: Lexeme) -> Seq<Lexeme>
    decreases parts.len() - k,
{
    if k < 0 || k >= parts.len() {
        seq![]
    } else {
        seq![separator] + parts[k] + tail_tokens(parts, k + 1, separator)
    }
}

/// One more list at the end.
proof fn lemma_tail_last(parts: Seq<Seq<Lexeme>>, k: int, separator: Lexeme)
    requires
        0 <= k < parts.len(),
    ensures
        tail_tokens(parts, k, separator) == tail_tokens(parts.drop_last(), k, separator)
            + seq![separator] + parts.last(),
    decreases parts.len() - k,
{
    let init = parts.drop_last();
    if k == parts.len() - 1 {
        assert(tail_tokens(parts, k + 1, separator) =~= seq![]);
        assert(tail_tokens(init, k, separator) =~= seq![]);
        assert(tail_tokens(parts, k, separator) =~= seq![separator] + parts.last());
        assert(seq![] + seq![separator] + parts.last() =~= seq![separator] + parts.last());
    } else {
        lemma_tail_last(parts, k + 1, separator);
        assert(init[k] == parts[k]);
        let rest = tail_tokens(init, k + 1, separator);
        assert(seq![separator] + parts[k] + (rest + seq![separator] + parts.last())
            =~= seq![separator] + parts[k] + rest + seq![separator] + parts.last());
    }
}

/// The tokens between separators, from the front.
proof fn lemma_join_front(parts: Seq<Seq<Lexeme>>, separator: Lexeme)
    requires
        parts.len() > 0,
    ensures
        join_tokens(parts, separator) == parts[0] + tail_tokens(parts, 1, separator),
    decreases parts.len(),
{
    if parts.len() == 1 {
        assert(tail_tokens(parts, 1, separator) =~= seq![]);
        assert(parts[0] + seq![] =~= parts[0]);
    } else {
        let init = parts.drop_last();
        lemma_join_front(init, separator);
        lemma_tail_last(parts, 1, separator);
        assert(init[0] == parts[0]);
        let rest = tail_tokens(init, 1, separator);
        assert(parts[0] + rest + seq![separator] + parts.last() =~= parts[0] + (rest
            + seq![separator] + parts.last()));
    }
}

/// The variables of a monomial can be read and its exponents are in range.
pub open spec fn mono_readable(m: Mono) -> bool {
    &&& mono_wf(m)
    &&& forall|j: int|
        0 <= j < m.len() ==> readable((#[trigger] m[j]).0) && isize::MIN <= m[j].1 <= isize::MAX
}

/// One more factor.
proof fn lemma_multiply_factor(m: Mono, k: int, c: int, p: int)
    requires
        p > 1,
        mono_readable(m),
        0 <= k < m.len(),
        0 < c < p,
    ensures
        multiplied(seq![(m.subrange(0, k), c)], factor_terms(m[k]), p) == Ok::<Terms, ParserFault>(
            seq![(m.subrange(0, k + 1), c)],
        ),
{
    let (a, b) = (m.subrange(0, k), seq![m[k]]);
    let r = m.subrange(0, k + 1);
    assert(mono_wf(a));
    assert(mono_wf(b));
    assert(mono_wf(r));
    lemma_mono_mul_wf(a, b);
    assert(r =~= a + b);
    assert forall|v: Variable| exponent(mono_mul(a, b), v) == exponent(r, v) by {
        lemma_mono_mul_exponent(a, b, v);
        lemma_exponent_concat(a, b, v);
    }
    lemma_mono_unique(mono_mul(a, b), r);
    let (s, t) = (seq![(a, c)], factor_terms(m[k]));
    assert(product_fits(s, t)) by {
        assert forall|i: int, j: int| 0 <= i < s.len() && 0 <= j < t.len() implies exponents_fit(
            #[trigger] mono_mul(s[i].0, t[j].0),
        ) by {
            assert(mono_mul(s[i].0, t[j].0) == r);
        }
    }
    assert(product_terms(s, t) =~= seq![(r, c)]) by {
        assert(s.drop_last() =~= seq![]);
        reveal_with_fuel(product_terms, 2);
        assert(scale_terms(t, a, c) =~= seq![(mono_mul(a, b), c * 1)]);
        assert(product_terms(s, t) =~= seq![] + scale_terms(t, a, c));
    }
    lemma_small(c, p);
    lemma_single_normal_form(r, c, c, p);
}

/// The factors of a monomial from number `k` on.
proof fn lemma_parse_factors(
    toks: Seq<Lexeme>,
    pos: int,
    parts: Seq<Seq<Lexeme>>,
    d: int,
    m: Mono,
    k: int,
    c: int,
)
    requires
        mono_readable(m),
        0 <= k <= m.len(),
        0 < c < Scalar::modulus(),
        0 <= d,
        parts.len() == m.len() + d,
        forall|j: int| 0 <= j < m.len() ==> parts[j + d] == factor_tokens(#[trigger] m[j]),
        stand_at(toks, pos, tail_tokens(parts, k + d, Lexeme::Multiply)),
        ends_product(toks, pos + tail_tokens(parts, k + d, Lexeme::Multiply).len()),
    ensures
        product_rest(seq![(m.subrange(0, k), c)], toks, pos, Scalar::modulus()) == Ok::<
            (Terms, int),
            ParserFault,
        >((seq![(m, c)], pos + tail_tokens(parts, k + d, Lexeme::Multiply).len())),
    decreases m.len() - k,
{
    let p = Scalar::modulus();
    Scalar::lemma_modulus();
    let tail = tail_tokens(parts, k + d, Lexeme::Multiply);
    let end = pos + tail.len();
    let operand = seq![(m.subrange(0, k), c)];
    if k == m.len() {
        assert(tail.len() == 0);
        assert(m.subrange(0, k) =~= m);
    } else {
        let f = m[k];
        assert(parts[k + d] == factor_tokens(f));
        let rest = tail_tokens(parts, k + d + 1, Lexeme::Multiply);
        lemma_stand_split(toks, pos, seq![Lexeme::Multiply] + factor_tokens(f), rest);
        lemma_stand_split(toks, pos, seq![Lexeme::Multiply], factor_tokens(f));
        assert(toks[pos + 0] == seq![Lexeme::Multiply][0]);
        let next = pos + 1 + factor_tokens(f).len();
        if k + 1 < m.len() {
            assert(rest[0] == Lexeme::Multiply);
            assert(toks[next + 0] == rest[0]);
        } else {
            assert(rest.len() == 0);
        }
        assert(mono_wf(m));
        lemma_parse_factor(toks, pos + 1, f);
        lemma_multiply_factor(m, k, c, p);
        assert(k + 1 + d == k + d + 1);
        lemma_parse_factors(toks, next, parts, d, m, k + 1, c);
        assert(end == next + rest.len());
    }
}

/// A term.
proof fn lemma_parse_term(toks: Seq<Lexeme>, pos: int, x: (Mono, int))
    requires
        mono_readable(x.0),
        0 < x.1 < Scalar::modulus(),
        stand_at(toks, pos, term_tokens(x, Scalar::modulus())),
        ends_product(toks, pos + term_tokens(x, Scalar::modulus()).len()),
    ensures
        product_at(toks, pos, Scalar::modulus()) == Ok::<(Terms, int), ParserFault>(
            (seq![x], pos + term_tokens(x, Scalar::modulus()).len()),
        ),
        term_tokens(x, Scalar::modulus()).len() > 0,
{
    let p = Scalar::modulus();
    Scalar::lemma_modulus();
    let (m, c) = x;
    let parts = operand_tokens(x, p);
    lemma_join_front(parts, Lexeme::Multiply);
    let first = parts[0];
    let tail = tail_tokens(parts, 1, Lexeme::Multiply);
    lemma_stand_split(toks, pos, first, tail);
    let next = pos + first.len();
    if parts.len() > 1 {
        assert(tail[0] == Lexeme::Multiply);
        assert(toks[next + 0] == tail[0]);
    } else {
        assert(tail.len() == 0);
    }
    if m.len() > 0 && c == 1 {
        lemma_parse_factor(toks, pos, m[0]);
        assert(m.subrange(0, 1) =~= seq![m[0]]);
        lemma_parse_factors(toks, next, parts, 0, m, 1, 1);
        assert(seq![(m, 1int)] =~= seq![x]);
        lemma_factor_tokens_positive(m[0]);
    } else {
        let n = if c > (p - 1) / 2 {
            c - p
        } else {
            c
        };
        lemma_parse_signed(toks, pos, n, p);
        if n < 0 {
            assert(n % p == c) by (nonlinear_arith)
                requires
                    n == c - p,
                    0 <= c < p,
            ;
        } else {
            lemma_small(c, p);
        }
        let t = const_terms(c);
        assert(power_rest(t, toks, next, p) == Ok::<(Terms, int), ParserFault>((t, next)));
        assert(power_at(toks, pos, p) == Ok::<(Terms, int), ParserFault>((t, next)));
        assert(m.subrange(0, 0) =~= Seq::<(Variable, int)>::empty());
        assert forall|j: int| 0 <= j < m.len() implies parts[j + 1] == factor_tokens(
            #[trigger] m[j],
        ) by {}
        lemma_parse_factors(toks, next, parts, 1, m, 0, c);
        assert(seq![(m, c)] =~= seq![x]);
    }
}

/// Factors have tokens.
proof fn lemma_factor_tokens_positive(f: (Variable, int))
    ensures
        factor_tokens(f).len() > 0,
{
    assert(variable_tokens(f.0).len() > 0);
}

/// All terms can be read.
pub open spec fn terms_readable(t: Terms) -> bool {
    &&& terms_wf(t, Scalar::modulus())
    &&& forall|i: int| 0 <= i < t.len() ==> mono_readable((#[trigger] t[i]).0)
}

/// The terms of a sum from number `k` on.
proof fn lemma_parse_terms(toks: Seq<Lexeme>, pos: int, t: Terms, k: int)
    requires
        terms_readable(t),
        0 < k <= t.len(),
        stand_at(
            toks,
            pos,
            tail_tokens(term_token_lists(t, Scalar::modulus()), k, Lexeme::Plus),
        ),
        ends_sum(
            toks,
            pos + tail_tokens(term_token_lists(t, Scalar::modulus()), k, Lexeme::Plus).len(),
        ),
    ensures
        sum_rest(t.subrange(0, k), toks, pos, Scalar::modulus()) == Ok::<(Terms, int), ParserFault>(
            (
                t,
                pos + tail_tokens(
                    term_token_lists(t, Scalar::modulus()),
                    k,
                    Lexeme::Plus,
                ).len(),
            ),
        ),
    decreases t.len() - k,
{
    let p = Scalar::modulus();
    Scalar::lemma_modulus();
    let parts = term_token_lists(t, p);
    let tail = tail_tokens(parts, k, Lexeme::Plus);
    let end = pos + tail.len();
    if k == t.len() {
        assert(tail.len() == 0);
        assert(t.subrange(0, k) =~= t);
    } else {
        let x = t[k];
        let part = term_tokens(x, p);
        assert(parts[k] == part);
        let rest = tail_tokens(parts, k + 1, Lexeme::Plus);
        lemma_stand_split(toks, pos, seq![Lexeme::Plus] + part, rest);
        lemma_stand_split(toks, pos, seq![Lexeme::Plus], part);
        assert(toks[pos + 0] == seq![Lexeme::Plus][0]);
        let next = pos + 1 + part.len();
        if k + 1 < t.len() {
            assert(rest[0] == Lexeme::Plus);
            assert(toks[next + 0] == rest[0]);
        } else {
            assert(rest.len() == 0);
        }
        lemma_parse_term(toks, pos + 1, x);
        assert(t.subrange(0, k) + seq![x] =~= t.subrange(0, k + 1));
        assert(terms_wf(t.subrange(0, k + 1), p)) by {
            let s = t.subrange(0, k + 1);
            assert forall|i: int, j: int| 0 <= i < j < s.len() implies crate::terms::mono_less(
                (#[trigger] s[i]).0,
                (#[trigger] s[j]).0,
            ) by {
                assert(s[i] == t[i] && s[j] == t[j]);
            }
        }
        lemma_own_normal_form(t.subrange(0, k + 1), p);
        lemma_parse_terms(toks, next, t, k + 1);
        assert(end == next + rest.len());
    }
}

/// An expression.
proof fn lemma_parse_expression(toks: Seq<Lexeme>, pos: int, t: Terms)
    requires
        terms_readable(t),
        stand_at(toks, pos, expression_tokens(t, Scalar::modulus())),
        ends_sum(toks, pos + expression_tokens(t, Scalar::modulus()).len()),
    ensures
        sum_at(toks, pos, Scalar::modulus()) == Ok::<(Terms, int), ParserFault>(
            (t, pos + expression_tokens(t, Scalar::modulus()).len()),
        ),
{
    let p = Scalar::modulus();
    Scalar::lemma_modulus();
    if t.len() == 0 {
        assert(toks[pos + 0] == expression_tokens(t, p)[0]);
        lemma_parse_number(toks, pos, 0, p);
        assert(const_terms(0) =~= t);
    } else {
        let parts = term_token_lists(t, p);
        lemma_join_front(parts, Lexeme::Plus);
        let first = term_tokens(t[0], p);
        assert(parts[0] == first);
        let tail = tail_tokens(parts, 1, Lexeme::Plus);
        lemma_stand_split(toks, pos, first, tail);
        let next = pos + first.len();
        if t.len() > 1 {
            assert(tail[0] == Lexeme::Plus);
            assert(toks[next + 0] == tail[0]);
        } else {
            assert(tail.len() == 0);
        }
        lemma_parse_term(toks, pos, t[0]);
        assert(seq![t[0]] =~= t.subrange(0, 1));
        lemma_parse_terms(toks, next, t, 1);
    }
}

/// The text of the right-hand side.
proof fn lemma_right_side()
    ensures
        scan(" == 0"@, 0) == Ok::<Seq<Lexeme>, LexerError>(
            seq![Lexeme::Equal, Lexeme::Number10(0), Lexeme::EndOfInput],
        ),
        stops(" == 0"@),
{
    Scalar::lemma_modulus();
    lemma_symbols();
    reveal_strlit(" ");
    reveal_strlit("==");
    reveal_strlit(" == 0");
    let empty = Seq::<char>::empty();
    assert(lexes_always("=="@, seq![Lexeme::Equal])) by {
        assert forall|rest: Seq<char>| #[trigger]
            scan("=="@ + rest, 0) == extend(seq![Lexeme::Equal], scan(rest, 0)) by {
            let s = "=="@ + rest;
            assert(s[0] == '=' && s[1] == '=');
            lemma_scan_shift("=="@, rest, 0);
            assert(scan(s, 2) == scan(rest, 0));
        }
    }
    lemma_lexes_spaced("=="@, Lexeme::Equal);
    lemma_lexes_decimal(0);
    let zero = decimal(0);
    lemma_lexes_concat(
        " "@ + "=="@ + " "@,
        seq![Lexeme::Equal],
        zero,
        seq![Lexeme::Number10(0)],
    );
    let text = " "@ + "=="@ + " "@ + zero;
    assert(" == 0"@ =~= text + empty);
    assert(scan(empty, 0) == Ok::<Seq<Lexeme>, LexerError>(seq![Lexeme::EndOfInput]));
    assert(scan(text + empty, 0) == extend(
        seq![Lexeme::Equal] + seq![Lexeme::Number10(0)],
        scan(empty, 0),
    ));
    assert(seq![Lexeme::Equal] + seq![Lexeme::Number10(0)] + seq![Lexeme::EndOfInput]
        =~= seq![Lexeme::Equal, Lexeme::Number10(0), Lexeme::EndOfInput]);
}

/// A constraint that is written down, with the right-hand side 0, is read as the same constraint.
/// Its variables must have column indices in the range of [`isize`] and rotations whose opposites
/// are in that range.
pub proof fn law_parse_undoes_print(t: Terms)
    requires
        terms_readable(t),
    ensures
        expression_of(
            expression_text(t, Scalar::modulus()) + " == 0"@,
            Scalar::modulus(),
        ) == Ok::<Terms, ExpressionFault>(t),
{
    let p = Scalar::modulus();
    Scalar::lemma_modulus();
    assert(printable(t, p)) by {
        assert forall|i: int, j: int|
            0 <= i < t.len() && 0 <= j < t[i].0.len() implies isize::MIN <= (
        #[trigger] t[i].0[j]).1 <= isize::MAX by {
            assert(mono_readable(t[i].0));
        }
    }
    lemma_lexes_expression(t);
    lemma_right_side();
    let text = expression_text(t, p) + " == 0"@;
    let left = expression_tokens(t, p);
    let right = seq![Lexeme::Equal, Lexeme::Number10(0), Lexeme::EndOfInput];
    let toks = left + right;
    assert(scan(text, 0) == Ok::<Seq<Lexeme>, LexerError>(toks));
    let n = left.len() as int;
    assert(stand_at(toks, 0, left));
    assert(toks[n] == right[0] && toks[n + 1] == right[1] && toks[n + 2] == right[2]);
    lemma_parse_expression(toks, 0, t);
    assert(expect(toks, n, Lexeme::Equal) == Ok::<int, ParserFault>(n + 1));
    lemma_parse_number(toks, n + 1, 0, p);
    assert(opposite(const_terms(0)) =~= seq![]);
    assert(t + opposite(const_terms(0)) =~= t);
    lemma_own_normal_form(t, p);
    assert(equality_at(toks, 0, p) == Ok::<(Terms, int), ParserFault>((t, n + 2)));
}

} // verus!
