//! Laws about the tokens of texts that are put together.
use crate::lexer::{
    is_space, is_word_char, prepend, scan, symbol_at, word_end, word_lexeme, Lexeme, LexerError,
};
use crate::roundtrip::{lemma_scan_shift, lemma_word_end_bounds};
use vstd::prelude::*;

verus! {

/// The tokens end with the end of the input, and hold it nowhere else.
pub open spec fn ends_once(tokens: Seq<Lexeme>) -> bool {
    &&& tokens.len() > 0
    &&& tokens.last() == Lexeme::EndOfInput
    &&& forall|k: int| 0 <= k < tokens.len() - 1 ==> #[trigger] tokens[k] != Lexeme::EndOfInput
}

/// The tokens of a text end with the end of the input, and hold it nowhere else.
proof fn lemma_ends_once(s: Seq<char>, i: int)
    requires
        0 <= i <= s.len(),
    ensures
        scan(s, i) matches Ok(tokens) ==> ends_once(tokens),
    decreases s.len() - i,
{
    if i < s.len() {
        if is_space(s[i]) {
            lemma_ends_once(s, i + 1);
        } else if is_word_char(s[i]) {
            lemma_word_end_bounds(s, i + 1);
            lemma_ends_once(s, word_end(s, i));
        } else {
            match symbol_at(s, i) {
                Some((_, next)) => {
                    lemma_ends_once(s, next);
                },
                None => {},
            }
        }
    }
}

/// The tokens of a text end with the end of the input, and hold it nowhere else.
pub proof fn law_tokens_end_once(s: Seq<char>)
    ensures
        scan(s, 0) matches Ok(tokens) ==> ends_once(tokens),
{
    lemma_ends_once(s, 0);
}

/// The tokens of two texts, one after the other: the end of the input is that of the second text. An
/// error in the first text comes before one in the second text.
pub open spec fn joined_tokens(
    first: Result<Seq<Lexeme>, LexerError>,
    second: Result<Seq<Lexeme>, LexerError>,
) -> Result<Seq<Lexeme>, LexerError> {
    match (first, second) {
        (Ok(a), Ok(b)) => Ok(a.drop_last() + b),
        (Ok(_), Err(error)) => Err(error),
        (Err(error), _) => Err(error),
    }
}

/// A token in front of the tokens of two texts is one in front of those of the first text.
proof fn lemma_prepend_joined(
    lexeme: Lexeme,
    first: Result<Seq<Lexeme>, LexerError>,
    second: Result<Seq<Lexeme>, LexerError>,
)
    requires
        first matches Ok(tokens) ==> tokens.len() > 0,
    ensures
        prepend(lexeme, joined_tokens(first, second)) == joined_tokens(
            prepend(lexeme, first),
            second,
        ),
{
    if let (Ok(a), Ok(b)) = (first, second) {
        assert((seq![lexeme] + a).drop_last() + b =~= seq![lexeme] + (a.drop_last() + b));
    }
}

/// Words of a text end at the same place if whitespace follows the text.
proof fn lemma_word_end_before_space(a: Seq<char>, b: Seq<char>, i: int)
    requires
        0 <= i <= a.len(),
        b.len() > 0,
        is_space(b[0]),
    ensures
        word_end(a + b, i) == word_end(a, i),
    decreases a.len() - i,
{
    let s = a + b;
    if i < a.len() {
        assert(s[i] == a[i]);
        if is_word_char(a[i]) {
            lemma_word_end_before_space(a, b, i + 1);
        }
    } else {
        assert(s[i] == b[0]);
    }
}

/// The tokens of a text that is followed by another one, which starts with whitespace.
proof fn lemma_scan_before_space(a: Seq<char>, b: Seq<char>, i: int)
    requires
        0 <= i <= a.len(),
        b.len() > 0,
        is_space(b[0]),
    ensures
        scan(a + b, i) == joined_tokens(scan(a, i), scan(b, 0)),
    decreases a.len() - i,
{
    let s = a + b;
    let rest = scan(b, 0);
    if i < a.len() {
        assert(s[i] == a[i]);
        if is_space(a[i]) {
            lemma_scan_before_space(a, b, i + 1);
        } else if is_word_char(a[i]) {
            lemma_word_end_before_space(a, b, i);
            lemma_word_end_bounds(a, i + 1);
            let e = word_end(a, i);
            assert(s.subrange(i, e) =~= a.subrange(i, e));
            lemma_scan_before_space(a, b, e);
            lemma_ends_once(a, e);
            match word_lexeme(a.subrange(i, e)) {
                Ok(lexeme) => {
                    lemma_prepend_joined(lexeme, scan(a, e), rest);
                },
                Err(_) => {},
            }
        } else {
            if i + 1 < a.len() {
                assert(s[i + 1] == a[i + 1]);
            } else {
                assert(s[i + 1] == b[0]);
            }
            assert(symbol_at(s, i) == symbol_at(a, i));
            match symbol_at(a, i) {
                Some((lexeme, next)) => {
                    lemma_scan_before_space(a, b, next);
                    lemma_ends_once(a, next);
                    lemma_prepend_joined(lexeme, scan(a, next), rest);
                },
                None => {},
            }
        }
    } else {
        lemma_scan_shift(a, b, 0);
        if let Ok(tokens) = rest {
            assert(seq![Lexeme::EndOfInput].drop_last() + tokens =~= tokens);
        }
    }
}

/// The tokens of two texts that are joined by whitespace are those of the first text without the end
/// of the input, followed by those of the second text.
pub proof fn law_tokens_of_joined_texts(a: Seq<char>, space: char, b: Seq<char>)
    requires
        is_space(space),
    ensures
        scan(a + seq![space] + b, 0) == joined_tokens(scan(a, 0), scan(b, 0)),
{
    let tail = seq![space] + b;
    assert(a + seq![space] + b =~= a + tail);
    lemma_scan_before_space(a, tail, 0);
    lemma_scan_shift(seq![space], b, 0);
    assert(tail[0] == space);
    assert(scan(tail, 0) == scan(tail, 1));
}

} // verus!
