use starkom::field::from_const;
use starkom::lexer::{LexerError, Token};

fn tokenize(input: &'static str) -> Vec<Token> {
    starkom::lexer::tokenize(input).unwrap()
}

#[test]
fn test_vitalik() {
    assert_eq!(
        tokenize("w(0) ^ 3 + w(0) + 5 == 35"),
        vec![
            Token::Identifier("w".to_string()),
            Token::LeftBracket,
            Token::Number10(from_const(0)),
            Token::RightBracket,
            Token::Power,
            Token::Number10(from_const(3)),
            Token::Plus,
            Token::Identifier("w".to_string()),
            Token::LeftBracket,
            Token::Number10(from_const(0)),
            Token::RightBracket,
            Token::Plus,
            Token::Number10(from_const(5)),
            Token::Equal,
            Token::Number10(from_const(35)),
            Token::EndOfInput
        ]
    );
}

#[test]
fn test_empty_input() {
    assert_eq!(tokenize(""), vec![Token::EndOfInput]);
}

#[test]
fn test_whitespace_only() {
    assert_eq!(tokenize("   \t\n  "), vec![Token::EndOfInput]);
}

#[test]
fn test_whitespace_is_optional_between_symbols() {
    assert_eq!(
        tokenize("1+2*3-4/5^6==7"),
        vec![
            Token::Number10(from_const(1)),
            Token::Plus,
            Token::Number10(from_const(2)),
            Token::Multiply,
            Token::Number10(from_const(3)),
            Token::Minus,
            Token::Number10(from_const(4)),
            Token::Divide,
            Token::Number10(from_const(5)),
            Token::Power,
            Token::Number10(from_const(6)),
            Token::Equal,
            Token::Number10(from_const(7)),
            Token::EndOfInput
        ]
    );
}

#[test]
fn test_mixed_whitespace_between_tokens() {
    assert_eq!(
        tokenize("1 \t+\n2"),
        vec![
            Token::Number10(from_const(1)),
            Token::Plus,
            Token::Number10(from_const(2)),
            Token::EndOfInput
        ]
    );
}

#[test]
fn test_decimal_zero() {
    assert_eq!(
        tokenize("0"),
        vec![Token::Number10(from_const(0)), Token::EndOfInput]
    );
}

#[test]
fn test_decimal_number() {
    assert_eq!(
        tokenize("123456789"),
        vec![
            Token::Number10(from_const(123456789)),
            Token::EndOfInput
        ]
    );
}

#[test]
fn test_octal_number() {
    assert_eq!(
        tokenize("017"),
        vec![Token::Number8(from_const(15)), Token::EndOfInput]
    );
}

#[test]
fn test_octal_number_with_leading_zeros() {
    assert_eq!(
        tokenize("007"),
        vec![Token::Number8(from_const(7)), Token::EndOfInput]
    );
}

#[test]
fn test_binary_number_lowercase_prefix() {
    assert_eq!(
        tokenize("0b1010"),
        vec![Token::Number2(from_const(10)), Token::EndOfInput]
    );
}

#[test]
fn test_binary_number_uppercase_prefix() {
    assert_eq!(
        tokenize("0B1010"),
        vec![Token::Number2(from_const(10)), Token::EndOfInput]
    );
}

#[test]
fn test_hexadecimal_number_lowercase() {
    assert_eq!(
        tokenize("0xff"),
        vec![Token::Number16(from_const(255)), Token::EndOfInput]
    );
}

#[test]
fn test_hexadecimal_number_uppercase() {
    assert_eq!(
        tokenize("0XFF"),
        vec![Token::Number16(from_const(255)), Token::EndOfInput]
    );
}

#[test]
fn test_variable_names() {
    assert_eq!(
        tokenize("_underscore CamelCase snake_case42"),
        vec![
            Token::Identifier("_underscore".to_string()),
            Token::Identifier("CamelCase".to_string()),
            Token::Identifier("snake_case42".to_string()),
            Token::EndOfInput
        ]
    );
}

#[test]
fn test_all_symbols() {
    assert_eq!(
        tokenize("+ - * / ^ , == ( )"),
        vec![
            Token::Plus,
            Token::Minus,
            Token::Multiply,
            Token::Divide,
            Token::Power,
            Token::Comma,
            Token::Equal,
            Token::LeftBracket,
            Token::RightBracket,
            Token::EndOfInput
        ]
    );
}

#[test]
fn test_nested_brackets() {
    assert_eq!(
        tokenize("((1 + 2))"),
        vec![
            Token::LeftBracket,
            Token::LeftBracket,
            Token::Number10(from_const(1)),
            Token::Plus,
            Token::Number10(from_const(2)),
            Token::RightBracket,
            Token::RightBracket,
            Token::EndOfInput
        ]
    );
}

#[test]
fn test_unary_minus_is_a_separate_token_from_the_number() {
    assert_eq!(
        tokenize("-5"),
        vec![
            Token::Minus,
            Token::Number10(from_const(5)),
            Token::EndOfInput
        ]
    );
}

#[test]
fn test_invalid_octal_digit_is_a_syntax_error() {
    assert!(starkom::lexer::tokenize("08").is_err());
}

#[test]
fn test_digit_immediately_followed_by_letter_is_a_syntax_error() {
    assert!(starkom::lexer::tokenize("5x").is_err());
}

#[test]
fn test_incomplete_hexadecimal_prefix_is_a_syntax_error() {
    assert!(starkom::lexer::tokenize("0x").is_err());
}

#[test]
fn test_incomplete_binary_prefix_is_a_syntax_error() {
    assert!(starkom::lexer::tokenize("0b").is_err());
}

#[test]
fn test_unknown_character_is_a_syntax_error() {
    assert!(starkom::lexer::tokenize("$").is_err());
}

#[test]
fn test_single_equal_sign_is_a_syntax_error() {
    assert!(starkom::lexer::tokenize("1=2").is_err());
}

#[test]
fn test_tokens_of_joined_texts() {
    let mut first = tokenize("w(1)+2");
    assert_eq!(first.pop(), Some(Token::EndOfInput));
    assert!(!first.contains(&Token::EndOfInput));
    first.extend(tokenize("3 == x"));
    assert_eq!(tokenize("w(1)+2 3 == x"), first);
    assert_eq!(tokenize("w(1)+2\n3 == x"), first);
    assert!(starkom::lexer::tokenize("1 = = 1").is_err());
}

#[test]
fn test_large_number_before_foreign_character() {
    let large = "9".repeat(90);
    let error = |text: String| starkom::lexer::tokenize(&text).unwrap_err();
    assert_eq!(error(large.clone()), LexerError::NumberTooLarge);
    assert_eq!(error(large.clone() + " x"), LexerError::NumberTooLarge);
    assert_eq!(error(large.clone() + "\u{3000}x"), LexerError::NumberTooLarge);
    assert_eq!(error(large + "\u{e9}"), LexerError::SyntaxError);
    assert_eq!(error("12\u{e9}".to_string()), LexerError::SyntaxError);
}
