//! Laws about the tokens of constraint expressions.
use crate::field::{digit_value, is_numeral, numeral_value, Field, Scalar};
use crate::lexer::{
    is_foreign, is_space, is_word_char, scan, symbol_at, word_lexeme, Lexeme, LexerError,
};
use crate::roundtrip::{lemma_scan_shift, lemma_word_end_at};
use vstd::arithmetic::power::{lemma_pow0, lemma_pow1, lemma_pow_adds, pow};
use vstd::prelude::*;

verus! {

/// A token, and the tokens behind it.
pub open spec fn followed_by(
    lexeme: Lexeme,
    rest: Result<Seq<Lexeme>, LexerError>,
) -> Result<Seq<Lexeme>, LexerError> {
    match rest {
        Ok(lexemes) => Ok(seq![lexeme] + lexemes),
        Err(error) => Err(error),
    }
}

/// The tokens of a text that starts with a given token.
pub open spec fn starts_with(text: Seq<char>, lexeme: Lexeme, rest: Seq<char>) -> bool {
    scan(text + rest, 0) == followed_by(lexeme, scan(rest, 0))
}

/// A symbol of one character.
proof fn lemma_symbol(c: char, lexeme: Lexeme, rest: Seq<char>)
    requires
        !is_space(c),
        !is_word_char(c),
        symbol_at(seq![c] + rest, 0) == Some((lexeme, 1int)),
    ensures
        starts_with(seq![c], lexeme, rest),
{
    let s = seq![c] + rest;
    assert(s[0] == c);
    lemma_scan_shift(seq![c], rest, 0);
    assert(scan(s, 1) == scan(rest, 0));
}

/// Each symbol is a token of its own, whatever follows it. An equality sign is made of two
/// characters, and one of them alone is refused.
pub proof fn law_symbols(rest: Seq<char>)
    ensures
        starts_with(seq!['+'], Lexeme::Plus, rest),
        starts_with(seq!['-'], Lexeme::Minus, rest),
        starts_with(seq!['*'], Lexeme::Multiply, rest),
        starts_with(seq!['/'], Lexeme::Divide, rest),
        starts_with(seq!['^'], Lexeme::Power, rest),
        starts_with(seq![','], Lexeme::Comma, rest),
        starts_with(seq!['('], Lexeme::LeftBracket, rest),
        starts_with(seq![')'], Lexeme::RightBracket, rest),
        starts_with(seq!['=', '='], Lexeme::Equal, rest),
        rest.len() == 0 || rest[0] != '=' ==> scan(seq!['='] + rest, 0) == Err::<
            Seq<Lexeme>,
            LexerError,
        >(LexerError::SyntaxError),
        scan(Seq::empty(), 0) == Ok::<Seq<Lexeme>, LexerError>(seq![Lexeme::EndOfInput]),
{
    lemma_symbol('+', Lexeme::Plus, rest);
    lemma_symbol('-', Lexeme::Minus, rest);
    lemma_symbol('*', Lexeme::Multiply, rest);
    lemma_symbol('/', Lexeme::Divide, rest);
    lemma_symbol('^', Lexeme::Power, rest);
    lemma_symbol(',', Lexeme::Comma, rest);
    lemma_symbol('(', Lexeme::LeftBracket, rest);
    lemma_symbol(')', Lexeme::RightBracket, rest);
    let s = seq!['=', '='] + rest;
    assert(s[0] == '=' && s[1] == '=');
    lemma_scan_shift(seq!['=', '='], rest, 0);
    assert(symbol_at(s, 0) == Some((Lexeme::Equal, 2int)));
    assert(scan(s, 2) == scan(rest, 0));
    let t = seq!['='] + rest;
    assert(t[0] == '=');
    if t.len() > 1 {
        assert(t[1] == rest[0]);
    }
}

/// Whitespace in front of a text does not change its tokens.
pub proof fn law_leading_space(c: char, rest: Seq<char>)
    requires
        c == ' ' || c == '\t' || c == '\n' || c == '\r' || c == '\u{b}' || c == '\u{c}' || c
            == '\u{85}' || c == '\u{a0}' || c == '\u{1680}' || '\u{2000}' <= c <= '\u{200a}' || c
            == '\u{2028}' || c == '\u{2029}' || c == '\u{202f}' || c == '\u{205f}' || c
            == '\u{3000}',
    ensures
        scan(seq![c] + rest, 0) == scan(rest, 0),
{
    let s = seq![c] + rest;
    assert(s[0] == c);
    lemma_scan_shift(seq![c], rest, 0);
    assert(scan(s, 1) == scan(rest, 0));
}

/// Letters, digits and underscores.
pub open spec fn belongs_to_word(c: char) -> bool {
    'a' <= c <= 'z' || 'A' <= c <= 'Z' || c == '_' || '0' <= c <= '9'
}

/// The text consists of letters, digits and underscores, and what follows it starts with something
/// else.
pub open spec fn is_whole_word(word: Seq<char>, rest: Seq<char>) -> bool {
    &&& word.len() > 0
    &&& forall|k: int| 0 <= k < word.len() ==> belongs_to_word(#[trigger] word[k])
    &&& rest.len() == 0 || !belongs_to_word(rest[0])
}

/// A sequence of characters is a numeral in a radix if it is not empty and each character is a digit, or
/// a letter that counts as one from ten on, whose value is under the radix.
pub proof fn law_numerals(s: Seq<char>, radix: int)
    requires
        radix <= 36,
    ensures
        is_numeral(s, radix) <==> s.len() > 0 && forall|i: int|
            0 <= i < s.len() ==> {
                ||| '0' <= #[trigger] s[i] <= '9' && (s[i] as int) - ('0' as int) < radix
                ||| 'a' <= s[i] <= 'z' && (s[i] as int) - ('a' as int) + 10 < radix
                ||| 'A' <= s[i] <= 'Z' && (s[i] as int) - ('A' as int) + 10 < radix
            },
{
    if is_numeral(s, radix) {
        assert forall|i: int| 0 <= i < s.len() implies {
            ||| '0' <= #[trigger] s[i] <= '9' && (s[i] as int) - ('0' as int) < radix
            ||| 'a' <= s[i] <= 'z' && (s[i] as int) - ('a' as int) + 10 < radix
            ||| 'A' <= s[i] <= 'Z' && (s[i] as int) - ('A' as int) + 10 < radix
        } by {
            assert(0 <= digit_value(s[i]) < radix);
        }
    }
}

/// The tokens of a text that starts with a word.
proof fn lemma_word(word: Seq<char>, rest: Seq<char>)
    requires
        is_whole_word(word, rest),
    ensures
        match word_lexeme(word) {
            Ok(lexeme) => starts_with(word, lexeme, rest),
            Err(error) => scan(word + rest, 0) == Err::<Seq<Lexeme>, LexerError>(
                if rest.len() > 0 && is_foreign(rest[0]) {
                    LexerError::SyntaxError
                } else {
                    error
                },
            ),
        },
{
    let s = word + rest;
    let e = word.len() as int;
    assert forall|k: int| 0 <= k < e implies is_word_char(#[trigger] s[k]) by {
        assert(s[k] == word[k]);
    }
    if e < s.len() {
        assert(s[e] == rest[0]);
    }
    lemma_word_end_at(s, 0, e);
    assert(s.subrange(0, e) =~= word);
    assert(is_word_char(s[0]));
    assert(!is_space(s[0]));
    lemma_scan_shift(word, rest, 0);
}

/// A word that does not start with a digit is an identifier, which is all of the word.
pub proof fn law_identifiers(word: Seq<char>, rest: Seq<char>)
    requires
        is_whole_word(word, rest),
        !('0' <= word[0] <= '9'),
    ensures
        starts_with(word, Lexeme::Identifier(word), rest),
{
    lemma_word(word, rest);
    assert(belongs_to_word(word[0]));
}

/// The characters are digits in the given radix.
pub open spec fn all_digits(s: Seq<char>, radix: int) -> bool {
    forall|i: int|
        0 <= i < s.len() ==> {
            ||| '0' <= #[trigger] s[i] <= '9' && (s[i] as int) - ('0' as int) < radix
            ||| 'a' <= s[i] <= 'f' && radix == 16
            ||| 'A' <= s[i] <= 'F' && radix == 16
        }
}

/// Digits in the sense of a radix.
proof fn lemma_digits(s: Seq<char>, radix: int)
    requires
        radix == 2 || radix == 8 || radix == 10 || radix == 16,
        s.len() > 0,
    ensures
        is_numeral(s, radix) <==> all_digits(s, radix),
        all_digits(s, radix) ==> forall|i: int| 0 <= i < s.len() ==> belongs_to_word(#[trigger] s[i]),
{
    if is_numeral(s, radix) {
        assert forall|i: int| 0 <= i < s.len() implies {
            ||| '0' <= #[trigger] s[i] <= '9' && (s[i] as int) - ('0' as int) < radix
            ||| 'a' <= s[i] <= 'f' && radix == 16
            ||| 'A' <= s[i] <= 'F' && radix == 16
        } by {
            assert(0 <= digit_value(s[i]) < radix);
        }
    }
}

/// Letters count as digits from ten on, in both cases, and a sequence of digits is worth the value of
/// its front part, shifted, plus the value of its back part.
pub proof fn law_digits(a: Seq<char>, b: Seq<char>, c: char, radix: int)
    ensures
        '0' <= c <= '9' ==> numeral_value(seq![c], radix) == c as int - '0' as int,
        'a' <= c <= 'z' ==> numeral_value(seq![c], radix) == 10 + (c as int - 'a' as int),
        'A' <= c <= 'Z' ==> numeral_value(seq![c], radix) == 10 + (c as int - 'A' as int),
        numeral_value(a + b, radix) == numeral_value(a, radix) * pow(radix, b.len())
            + numeral_value(b, radix),
    decreases b.len(),
{
    assert(seq![c].drop_last() =~= Seq::<char>::empty());
    reveal_with_fuel(numeral_value, 2);
    if b.len() == 0 {
        assert(a + b =~= a);
        lemma_pow0(radix);
    } else {
        let front = b.drop_last();
        law_digits(a, front, c, radix);
        assert((a + b).drop_last() =~= a + front);
        lemma_pow_adds(radix, front.len(), 1);
        lemma_pow1(radix);
        let (x, y, z) = (numeral_value(a, radix), numeral_value(front, radix), pow(radix, front.len()));
        assert((x * z + y) * radix == x * (z * radix) + y * radix) by (nonlinear_arith);
    }
}

/// How a number that is too large is refused: foreign characters behind it are noticed first.
pub open spec fn too_large(rest: Seq<char>) -> Result<Seq<Lexeme>, LexerError> {
    if rest.len() > 0 && rest[0] > '\u{7f}' && !is_space(rest[0]) {
        Err(LexerError::SyntaxError)
    } else {
        Err(LexerError::NumberTooLarge)
    }
}

/// Digits without a leading zero are a decimal number.
pub proof fn law_decimal_numbers(s: Seq<char>, rest: Seq<char>)
    requires
        is_whole_word(s, rest),
        all_digits(s, 10),
        s[0] != '0' || s.len() == 1,
    ensures
        numeral_value(s, 10) < Scalar::modulus() ==> starts_with(
            s,
            Lexeme::Number10(numeral_value(s, 10)),
            rest,
        ),
        numeral_value(s, 10) >= Scalar::modulus() ==> scan(s + rest, 0) == too_large(rest),
{
    lemma_digits(s, 10);
    lemma_word(s, rest);
    assert('0' <= s[0] <= '9');
}

/// Digits behind a zero are an octal number.
pub proof fn law_octal_numbers(s: Seq<char>, word: Seq<char>, rest: Seq<char>)
    requires
        word == seq!['0'] + s,
        s.len() > 0,
        is_whole_word(word, rest),
        all_digits(s, 8),
    ensures
        numeral_value(s, 8) < Scalar::modulus() ==> starts_with(
            word,
            Lexeme::Number8(numeral_value(s, 8)),
            rest,
        ),
        numeral_value(s, 8) >= Scalar::modulus() ==> scan(word + rest, 0)
            == too_large(rest),
{
    assert forall|i: int| 0 <= i < word.len() implies '0' <= #[trigger] word[i] <= '9' && (word[i] as int)
        - ('0' as int) <= 7 by {
        if i > 0 {
            assert(word[i] == s[i - 1]);
        }
    }
    assert(all_digits(word, 8));
    lemma_digits(word, 8);
    law_digits(seq!['0'], s, '0', 8);
    lemma_word(word, rest);
    assert(0int * pow(8, s.len()) == 0);
}

/// Digits behind `0b` or `0B` are a binary number.
pub proof fn law_binary_numbers(s: Seq<char>, letter: char, word: Seq<char>, rest: Seq<char>)
    requires
        letter == 'b' || letter == 'B',
        word == seq!['0', letter] + s,
        s.len() > 0,
        is_whole_word(word, rest),
        all_digits(s, 2),
    ensures
        numeral_value(s, 2) < Scalar::modulus() ==> starts_with(
            word,
            Lexeme::Number2(numeral_value(s, 2)),
            rest,
        ),
        numeral_value(s, 2) >= Scalar::modulus() ==> scan(word + rest, 0)
            == too_large(rest),
{
    lemma_digits(s, 2);
    assert(word.subrange(2, word.len() as int) =~= s);
    assert(word[0] == '0' && word[1] == letter);
    assert(!is_numeral(word, 8)) by {
        assert(digit_value(word[1]) >= 8);
    }
    lemma_word(word, rest);
}

/// Digits behind `0x` or `0X` are a hexadecimal number.
pub proof fn law_hexadecimal_numbers(s: Seq<char>, letter: char, word: Seq<char>, rest: Seq<char>)
    requires
        letter == 'x' || letter == 'X',
        word == seq!['0', letter] + s,
        s.len() > 0,
        is_whole_word(word, rest),
        all_digits(s, 16),
    ensures
        numeral_value(s, 16) < Scalar::modulus() ==> starts_with(
            word,
            Lexeme::Number16(numeral_value(s, 16)),
            rest,
        ),
        numeral_value(s, 16) >= Scalar::modulus() ==> scan(word + rest, 0)
            == too_large(rest),
{
    lemma_digits(s, 16);
    assert(word.subrange(2, word.len() as int) =~= s);
    assert(word[0] == '0' && word[1] == letter);
    assert(!is_numeral(word, 8)) by {
        assert(digit_value(word[1]) >= 8);
    }
    lemma_word(word, rest);
}

/// A word that starts with a digit is refused unless it is a decimal, an octal, a binary or a
/// hexadecimal number.
pub proof fn law_malformed_numbers(word: Seq<char>, rest: Seq<char>)
    requires
        is_whole_word(word, rest),
        '0' <= word[0] <= '9',
        !(all_digits(word, 10) && word[0] != '0'),
        !all_digits(word, 8),
        !(word.len() > 2 && word[0] == '0' && (word[1] == 'b' || word[1] == 'B') && all_digits(
            word.subrange(2, word.len() as int),
            2,
        )),
        !(word.len() > 2 && word[0] == '0' && (word[1] == 'x' || word[1] == 'X') && all_digits(
            word.subrange(2, word.len() as int),
            16,
        )),
    ensures
        scan(word + rest, 0) == Err::<Seq<Lexeme>, LexerError>(LexerError::SyntaxError),
{
    lemma_word(word, rest);
    lemma_digits(word, 10);
    lemma_digits(word, 8);
    if word.len() > 2 {
        lemma_digits(word.subrange(2, word.len() as int), 2);
        lemma_digits(word.subrange(2, word.len() as int), 16);
    }
    if word.len() == 1 && word[0] == '0' {
        assert(all_digits(word, 8));
    }
}

/// A text is refused if it starts with a character that is neither a whitespace character nor part of
/// a word or a symbol.
pub proof fn law_strange_characters(c: char, rest: Seq<char>)
    requires
        !is_space(c),
        !belongs_to_word(c),
        c != '+' && c != '-' && c != '*' && c != '/' && c != '^' && c != ',' && c != '(' && c != ')'
            && c != '=',
    ensures
        scan(seq![c] + rest, 0) == Err::<Seq<Lexeme>, LexerError>(LexerError::SyntaxError),
{
    assert((seq![c] + rest)[0] == c);
}

} // verus!
