//! The lexical structure of constraint expressions.
use crate::field::{digit_value, is_numeral, numeral_value, Field, Scalar};
use vstd::prelude::*;
use vstd::string::*;

verus! {

/// Lexical tokens for Starkom's expression syntax.
#[derive(Debug, Clone, PartialEq, Eq, PartialOrd)]
pub enum Token {
    Number2(Scalar),
    Number8(Scalar),
    Number10(Scalar),
    Number16(Scalar),
    Identifier(String),
    Plus,
    Minus,
    Multiply,
    Divide,
    Power,
    Comma,
    Equal,
    LeftBracket,
    RightBracket,
    EndOfInput,
}

/// What a token stands for.
pub ghost enum Lexeme {
    Number2(int),
    Number8(int),
    Number10(int),
    Number16(int),
    Identifier(Seq<char>),
    Plus,
    Minus,
    Multiply,
    Divide,
    Power,
    Comma,
    Equal,
    LeftBracket,
    RightBracket,
    EndOfInput,
}

impl View for Token {
    type V = Lexeme;

    open spec fn view(&self) -> Lexeme {
        match *self {
            Token::Number2(value) => Lexeme::Number2(value.value()),
            Token::Number8(value) => Lexeme::Number8(value.value()),
            Token::Number10(value) => Lexeme::Number10(value.value()),
            Token::Number16(value) => Lexeme::Number16(value.value()),
            Token::Identifier(label) => Lexeme::Identifier(label@),
            Token::Plus => Lexeme::Plus,
            Token::Minus => Lexeme::Minus,
            Token::Multiply => Lexeme::Multiply,
            Token::Divide => Lexeme::Divide,
            Token::Power => Lexeme::Power,
            Token::Comma => Lexeme::Comma,
            Token::Equal => Lexeme::Equal,
            Token::LeftBracket => Lexeme::LeftBracket,
            Token::RightBracket => Lexeme::RightBracket,
            Token::EndOfInput => Lexeme::EndOfInput,
        }
    }
}

/// What a list of tokens stands for.
pub open spec fn lexemes(tokens: Seq<Token>) -> Seq<Lexeme> {
    Seq::new(tokens.len(), |i: int| tokens[i]@)
}

/// Why an expression cannot be split into tokens.
#[derive(Debug, Clone, Copy, PartialEq, Eq, Structural)]
pub enum LexerError {
    /// There is something that is no token.
    SyntaxError,
    /// A number is not smaller than the order of the field.
    NumberTooLarge,
}

/// Whitespace characters.
pub open spec fn is_space(c: char) -> bool {
    ||| '\u{9}' <= c <= '\u{d}'
    ||| c == ' '
    ||| c == '\u{85}'
    ||| c == '\u{a0}'
    ||| c == '\u{1680}'
    ||| '\u{2000}' <= c <= '\u{200a}'
    ||| c == '\u{2028}'
    ||| c == '\u{2029}'
    ||| c == '\u{202f}'
    ||| c == '\u{205f}'
    ||| c == '\u{3000}'
}

/// Characters that words begin with, unless the words are numbers.
pub open spec fn is_letter(c: char) -> bool {
    'a' <= c <= 'z' || 'A' <= c <= 'Z' || c == '_'
}

/// Characters that words are made of.
pub open spec fn is_word_char(c: char) -> bool {
    is_letter(c) || '0' <= c <= '9'
}

/// Characters that are neither ASCII characters nor whitespace. No token holds them.
pub open spec fn is_foreign(c: char) -> bool {
    c > '\u{7f}' && !is_space(c)
}

/// The error for a word that ends at `end`: numbers that are too large are only looked at if no
/// foreign character follows them.
pub open spec fn word_error(s: Seq<char>, end: int, error: LexerError) -> LexerError {
    if 0 <= end < s.len() && is_foreign(s[end]) {
        LexerError::SyntaxError
    } else {
        error
    }
}

/// The number of characters of the word that starts at `i`.
pub open spec fn word_end(s: Seq<char>, i: int) -> int
    decreases s.len() - i,
{
    if 0 <= i < s.len() && is_word_char(s[i]) {
        word_end(s, i + 1)
    } else {
        i
    }
}

/// The token made of a word.
pub open spec fn word_lexeme(word: Seq<char>) -> Result<Lexeme, LexerError> {
    let p = Scalar::modulus();
    let tail = word.subrange(2, word.len() as int);
    if word.len() == 0 {
        Err(LexerError::SyntaxError)
    } else if is_letter(word[0]) {
        Ok(Lexeme::Identifier(word))
    } else if word[0] == '0' && word.len() >= 2 {
        if is_numeral(word, 8) {
            if numeral_value(word, 8) < p {
                Ok(Lexeme::Number8(numeral_value(word, 8)))
            } else {
                Err(LexerError::NumberTooLarge)
            }
        } else if (word[1] == 'b' || word[1] == 'B') && is_numeral(tail, 2) {
            if numeral_value(tail, 2) < p {
                Ok(Lexeme::Number2(numeral_value(tail, 2)))
            } else {
                Err(LexerError::NumberTooLarge)
            }
        } else if (word[1] == 'x' || word[1] == 'X') && is_numeral(tail, 16) {
            if numeral_value(tail, 16) < p {
                Ok(Lexeme::Number16(numeral_value(tail, 16)))
            } else {
                Err(LexerError::NumberTooLarge)
            }
        } else {
            Err(LexerError::SyntaxError)
        }
    } else if is_numeral(word, 10) {
        if numeral_value(word, 10) < p {
            Ok(Lexeme::Number10(numeral_value(word, 10)))
        } else {
            Err(LexerError::NumberTooLarge)
        }
    } else {
        Err(LexerError::SyntaxError)
    }
}

/// The symbol at `i`, with the position behind it.
pub open spec fn symbol_at(s: Seq<char>, i: int) -> Option<(Lexeme, int)> {
    if s[i] == '+' {
        Some((Lexeme::Plus, i + 1))
    } else if s[i] == '-' {
        Some((Lexeme::Minus, i + 1))
    } else if s[i] == '*' {
        Some((Lexeme::Multiply, i + 1))
    } else if s[i] == '/' {
        Some((Lexeme::Divide, i + 1))
    } else if s[i] == '^' {
        Some((Lexeme::Power, i + 1))
    } else if s[i] == ',' {
        Some((Lexeme::Comma, i + 1))
    } else if s[i] == '(' {
        Some((Lexeme::LeftBracket, i + 1))
    } else if s[i] == ')' {
        Some((Lexeme::RightBracket, i + 1))
    } else if s[i] == '=' && i + 1 < s.len() && s[i + 1] == '=' {
        Some((Lexeme::Equal, i + 2))
    } else {
        None
    }
}

/// The tokens of the text that starts at `i`.
pub open spec fn scan(s: Seq<char>, i: int) -> Result<Seq<Lexeme>, LexerError>
    decreases s.len() - i,
    via scan_decreases
{
    if i < 0 || i >= s.len() {
        Ok(seq![Lexeme::EndOfInput])
    } else if is_space(s[i]) {
        scan(s, i + 1)
    } else if is_word_char(s[i]) {
        match word_lexeme(s.subrange(i, word_end(s, i))) {
            Ok(lexeme) => prepend(lexeme, scan(s, word_end(s, i))),
            Err(error) => Err(word_error(s, word_end(s, i), error)),
        }
    } else {
        match symbol_at(s, i) {
            Some((lexeme, next)) => prepend(lexeme, scan(s, next)),
            None => Err(LexerError::SyntaxError),
        }
    }
}

/// A token in front of others.
pub open spec fn prepend(
    lexeme: Lexeme,
    rest: Result<Seq<Lexeme>, LexerError>,
) -> Result<Seq<Lexeme>, LexerError> {
    match rest {
        Ok(lexemes) => Ok(seq![lexeme] + lexemes),
        Err(error) => Err(error),
    }
}

#[via_fn]
proof fn scan_decreases(s: Seq<char>, i: int) {
    if 0 <= i < s.len() && is_word_char(s[i]) {
        lemma_word_end(s, i + 1);
    }
}

/// Where a word ends.
proof fn lemma_word_end(s: Seq<char>, i: int)
    requires
        0 <= i <= s.len(),
    ensures
        i <= word_end(s, i) <= s.len(),
        forall|k: int| i <= k < word_end(s, i) ==> is_word_char(#[trigger] s[k]),
        word_end(s, i) < s.len() ==> !is_word_char(s[word_end(s, i)]),
    decreases s.len() - i,
{
    if i < s.len() && is_word_char(s[i]) {
        lemma_word_end(s, i + 1);
    }
}

/// Tells whether a character is whitespace.
fn is_whitespace(c: char) -> (ret: bool)
    ensures
        ret == is_space(c),
{
    ('\u{9}' <= c && c <= '\u{d}') || c == ' ' || c == '\u{85}' || c == '\u{a0}' || c
        == '\u{1680}' || ('\u{2000}' <= c && c <= '\u{200a}') || c == '\u{2028}' || c == '\u{2029}'
        || c == '\u{202f}' || c == '\u{205f}' || c == '\u{3000}'
}

/// Tells whether a character is neither an ASCII character nor whitespace.
fn is_foreign_char(c: char) -> (ret: bool)
    ensures
        ret == is_foreign(c),
{
    c > '\u{7f}' && !is_whitespace(c)
}

/// Tells whether words can begin with a character, unless they are numbers.
fn begins_identifier(c: char) -> (ret: bool)
    ensures
        ret == is_letter(c),
{
    ('a' <= c && c <= 'z') || ('A' <= c && c <= 'Z') || c == '_'
}

/// Tells whether words can hold a character.
fn belongs_to_word(c: char) -> (ret: bool)
    ensures
        ret == is_word_char(c),
{
    begins_identifier(c) || ('0' <= c && c <= '9')
}

/// Tells whether a text is a number in the given radix.
fn all_digits(text: &str, radix: u32) -> (ret: bool)
    requires
        radix <= 36,
    ensures
        ret == is_numeral(text@, radix as int),
{
    let n: usize = text.unicode_len();
    let mut i: usize = 0;
    while i < n
        invariant
            i <= n,
            n == text@.len(),
            forall|k: int| 0 <= k < i ==> 0 <= digit_value(#[trigger] text@[k]) < radix,
        decreases n - i,
    {
        let c = text.get_char(i);
        let valid = if '0' <= c && c <= '9' {
            c as u32 - 48 < radix
        } else if 'a' <= c && c <= 'z' {
            c as u32 - 87 < radix
        } else if 'A' <= c && c <= 'Z' {
            c as u32 - 55 < radix
        } else {
            false
        };
        if !valid {
            assert(!(0 <= digit_value(text@[i as int]) < radix));
            return false;
        }
        i += 1;
    }
    n > 0
}

/// Reads a number.
fn read_number(text: &str, radix: usize) -> (ret: Result<Scalar, LexerError>)
    requires
        2 <= radix <= 36,
        is_numeral(text@, radix as int),
    ensures
        match ret {
            Ok(value) => value.value() == numeral_value(text@, radix as int) && value.value()
                < Scalar::modulus(),
            Err(error) => numeral_value(text@, radix as int) >= Scalar::modulus() && error
                == LexerError::NumberTooLarge,
        },
{
    match Scalar::from_str_radix(text, radix) {
        Some(value) => Ok(value),
        None => Err(LexerError::NumberTooLarge),
    }
}

/// Splits an expression into tokens.
#[derive(Debug)]
struct Lexer<'a> {
    input: &'a str,
    len: usize,
    position: usize,
}

impl<'a> Lexer<'a> {
    spec fn wf(self) -> bool {
        &&& self.len == self.input@.len()
        &&& self.position <= self.len
    }

    fn new(input: &'a str) -> (ret: Self)
        ensures
            ret.wf(),
            ret.input == input,
            ret.position == 0,
    {
        Lexer { input, len: input.unicode_len(), position: 0 }
    }

    /// Skips whitespace.
    fn consume_whitespace(&mut self)
        requires
            old(self).wf(),
        ensures
            final(self).wf(),
            final(self).input == old(self).input,
            final(self).position >= old(self).position,
            scan(final(self).input@, final(self).position as int) == scan(
                old(self).input@,
                old(self).position as int,
            ),
            final(self).position < final(self).len ==> !is_space(
                final(self).input@[final(self).position as int],
            ),
    {
        while self.position < self.len && is_whitespace(self.input.get_char(self.position))
            invariant
                self.wf(),
                self.input == old(self).input,
                self.position >= old(self).position,
                scan(self.input@, self.position as int) == scan(
                    old(self).input@,
                    old(self).position as int,
                ),
            decreases self.len - self.position,
        {
            self.position += 1;
        }
    }

    /// Takes the longest word at the current position.
    fn consume_word(&mut self) -> (ret: &'a str)
        requires
            old(self).wf(),
            old(self).position < old(self).len,
            is_word_char(old(self).input@[old(self).position as int]),
        ensures
            final(self).wf(),
            final(self).input == old(self).input,
            final(self).position == word_end(old(self).input@, old(self).position as int),
            final(self).position > old(self).position,
            ret@ == old(self).input@.subrange(
                old(self).position as int,
                final(self).position as int,
            ),
    {
        let start: usize = self.position;
        let ghost s = self.input@;
        self.position += 1;
        while self.position < self.len && belongs_to_word(self.input.get_char(self.position))
            invariant
                self.wf(),
                self.input == old(self).input,
                s == self.input@,
                self.position > start,
                word_end(s, self.position as int) == word_end(s, start as int),
            decreases self.len - self.position,
        {
            self.position += 1;
        }
        self.input.substring_char(start, self.position)
    }

    /// Takes the symbol at the current position.
    fn consume_symbol(&mut self) -> (ret: Result<Token, LexerError>)
        requires
            old(self).wf(),
            old(self).position < old(self).len,
        ensures
            final(self).wf(),
            final(self).input == old(self).input,
            match ret {
                Ok(token) => {
                    &&& symbol_at(old(self).input@, old(self).position as int) == Some(
                        (token@, final(self).position as int),
                    )
                    &&& final(self).position > old(self).position
                },
                Err(error) => {
                    &&& symbol_at(old(self).input@, old(self).position as int) is None
                    &&& error == LexerError::SyntaxError
                },
            },
    {
        let c = self.input.get_char(self.position);
        let token = if c == '+' {
            Token::Plus
        } else if c == '-' {
            Token::Minus
        } else if c == '*' {
            Token::Multiply
        } else if c == '/' {
            Token::Divide
        } else if c == '^' {
            Token::Power
        } else if c == ',' {
            Token::Comma
        } else if c == '(' {
            Token::LeftBracket
        } else if c == ')' {
            Token::RightBracket
        } else if c == '=' && self.position + 1 < self.len && self.input.get_char(
            self.position + 1,
        ) == '=' {
            self.position += 1;
            Token::Equal
        } else {
            return Err(LexerError::SyntaxError);
        };
        self.position += 1;
        Ok(token)
    }

    fn tokenize(self) -> (ret: Result<Vec<Token>, LexerError>)
        requires
            self.wf(),
            self.position == 0,
        ensures
            match ret {
                Ok(tokens) => scan(self.input@, 0) == Ok::<Seq<Lexeme>, LexerError>(
                    lexemes(tokens@),
                ),
                Err(error) => scan(self.input@, 0) == Err::<Seq<Lexeme>, LexerError>(error),
            },
    {
        let ghost s = self.input@;
        let mut lexer = self;
        let mut tokens: Vec<Token> = Vec::new();
        lexer.consume_whitespace();
        proof {
            lemma_extend_empty(scan(s, 0));
            assert(lexemes(tokens@) =~= seq![]);
        }
        while lexer.position < lexer.len
            invariant
                lexer.wf(),
                lexer.input@ == s,
                self.input@ == s,
                scan(s, 0) == extend(lexemes(tokens@), scan(s, lexer.position as int)),
                lexer.position < lexer.len ==> !is_space(s[lexer.position as int]),
            decreases lexer.len - lexer.position,
        {
            let ghost i = lexer.position as int;
            let ghost before = lexemes(tokens@);
            let c = lexer.input.get_char(lexer.position);
            let token = if belongs_to_word(c) {
                let word = lexer.consume_word();
                match word_token(word) {
                    Ok(token) => token,
                    Err(error) => {
                        if lexer.position < lexer.len && is_foreign_char(
                            lexer.input.get_char(lexer.position),
                        ) {
                            return Err(LexerError::SyntaxError);
                        }
                        return Err(error);
                    },
                }
            } else {
                match lexer.consume_symbol() {
                    Ok(token) => token,
                    Err(error) => {
                        return Err(error);
                    },
                }
            };
            let ghost lexeme = token@;
            proof {
                assert(scan(s, i) == prepend(lexeme, scan(s, lexer.position as int)));
                lemma_extend_prepend(before, lexeme, scan(s, lexer.position as int));
            }
            tokens.push(token);
            proof {
                assert(lexemes(tokens@) =~= before.push(lexeme));
            }
            lexer.consume_whitespace();
        }
        let ghost before = lexemes(tokens@);
        tokens.push(Token::EndOfInput);
        proof {
            assert(lexemes(tokens@) =~= before + seq![Lexeme::EndOfInput]);
        }
        Ok(tokens)
    }
}

/// Tokens behind others.
spec fn extend(before: Seq<Lexeme>, rest: Result<Seq<Lexeme>, LexerError>) -> Result<
    Seq<Lexeme>,
    LexerError,
> {
    match rest {
        Ok(lexemes) => Ok(before + lexemes),
        Err(error) => Err(error),
    }
}

proof fn lemma_extend_empty(rest: Result<Seq<Lexeme>, LexerError>)
    ensures
        extend(seq![], rest) == rest,
{
    if rest is Ok {
        assert(seq![] + rest->Ok_0 =~= rest->Ok_0);
    }
}

proof fn lemma_extend_prepend(
    before: Seq<Lexeme>,
    lexeme: Lexeme,
    rest: Result<Seq<Lexeme>, LexerError>,
)
    ensures
        extend(before, prepend(lexeme, rest)) == extend(before.push(lexeme), rest),
{
    if rest is Ok {
        assert(before + (seq![lexeme] + rest->Ok_0) =~= before.push(lexeme) + rest->Ok_0);
    }
}

/// Makes a token of a word.
fn word_token(word: &str) -> (ret: Result<Token, LexerError>)
    requires
        word@.len() > 0,
    ensures
        match ret {
            Ok(token) => word_lexeme(word@) == Ok::<Lexeme, LexerError>(token@),
            Err(error) => word_lexeme(word@) == Err::<Lexeme, LexerError>(error),
        },
{
    let n: usize = word.unicode_len();
    let first = word.get_char(0);
    if begins_identifier(first) {
        return Ok(Token::Identifier(word.to_owned()));
    }
    if first == '0' && n >= 2 {
        if all_digits(word, 8) {
            return match read_number(word, 8) {
                Ok(value) => Ok(Token::Number8(value)),
                Err(error) => Err(error),
            };
        }
        let second = word.get_char(1);
        let tail = word.substring_char(2, n);
        if (second == 'b' || second == 'B') && all_digits(tail, 2) {
            return match read_number(tail, 2) {
                Ok(value) => Ok(Token::Number2(value)),
                Err(error) => Err(error),
            };
        }
        if (second == 'x' || second == 'X') && all_digits(tail, 16) {
            return match read_number(tail, 16) {
                Ok(value) => Ok(Token::Number16(value)),
                Err(error) => Err(error),
            };
        }
        return Err(LexerError::SyntaxError);
    }
    if all_digits(word, 10) {
        return match read_number(word, 10) {
            Ok(value) => Ok(Token::Number10(value)),
            Err(error) => Err(error),
        };
    }
    Err(LexerError::SyntaxError)
}

/// Scans an expression in Starkom's expression syntax and returns the corresponding list of lexical
/// tokens.
pub fn tokenize(input: &str) -> (ret: Result<Vec<Token>, LexerError>)
    ensures
        match ret {
            Ok(tokens) => scan(input@, 0) == Ok::<Seq<Lexeme>, LexerError>(lexemes(tokens@)),
            Err(error) => scan(input@, 0) == Err::<Seq<Lexeme>, LexerError>(error),
        },
{
    Lexer::new(input).tokenize()
}

} // verus!
