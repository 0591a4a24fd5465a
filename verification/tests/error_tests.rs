use calculator::error::{ParseError, ParseResult};
use calculator::token::{Token, TokenType};

#[test]
fn test_error_display() {
    let err = ParseError::unexpected_char('$', 1, 5);
    assert_eq!(err.message(), "Unexpected character '$' at 1:5");

    let token = Token::new(TokenType::Plus, "+".to_string(), 2, 10);
    let err = ParseError::unexpected_token(vec![TokenType::Number], token);
    assert!(err.message().contains("Expected Number"));
    assert!(err.message().contains("found Plus"));
}

#[test]
fn each_error_has_its_message() {
    let token = Token::new(TokenType::Plus, "+".to_string(), 2, 10);
    assert_eq!(
        ParseError::unexpected_token(vec![TokenType::Number], token.clone()).message(),
        "Expected Number, found Plus(+) at 2:10"
    );
    assert_eq!(
        ParseError::unexpected_token(vec![TokenType::Number, TokenType::LeftParen], token)
            .message(),
        "Expected one of Number, LeftParen, found Plus(+) at 2:10"
    );
    assert_eq!(
        ParseError::unexpected_token(vec![], Token::eof(1, 4)).message(),
        "Expected one of , found Eof at 1:4"
    );
    assert_eq!(
        ParseError::unexpected_eof(vec![TokenType::RightParen]).message(),
        "Unexpected end of input, expected RightParen"
    );
    assert_eq!(
        ParseError::unexpected_eof(vec![
            TokenType::Plus,
            TokenType::Minus,
            TokenType::RightParen
        ])
        .message(),
        "Unexpected end of input, expected one of Plus, Minus, RightParen"
    );
    assert_eq!(
        ParseError::invalid_number("1.2.3".to_string(), 3, 14).message(),
        "Invalid number '1.2.3' at 3:14"
    );
    assert_eq!(
        ParseError::division_by_zero(1, 1234567890).message(),
        "Division by zero at 1:1234567890"
    );
    assert_eq!(
        ParseError::syntax_error("no way".to_string(), 0, 100).message(),
        "Syntax error at 0:100: no way"
    );
}

#[test]
fn constructors_fill_the_fields() {
    assert_eq!(
        ParseError::unexpected_char('@', 1, 3),
        ParseError::UnexpectedChar { char: '@', line: 1, column: 3 }
    );
    assert_eq!(
        ParseError::unexpected_eof(vec![TokenType::Eof]),
        ParseError::UnexpectedEof { expected: vec![TokenType::Eof] }
    );
    assert_eq!(
        ParseError::division_by_zero(4, 2),
        ParseError::DivisionByZero { line: 4, column: 2 }
    );
    let failed: ParseResult<u8> = Err(ParseError::invalid_number("x".to_string(), 1, 1));
    assert!(failed.is_err());
}

#[test]
fn numbers_are_written_in_decimal() {
    assert_eq!(calculator::text::decimal(0), "0");
    assert_eq!(calculator::text::decimal(7), "7");
    assert_eq!(calculator::text::decimal(10), "10");
    assert_eq!(calculator::text::decimal(4096), "4096");
    assert_eq!(calculator::text::decimal(usize::MAX), usize::MAX.to_string());
    assert_eq!(calculator::text::digit(9), '9');
}

#[test]
fn a_token_is_shown_with_its_text_and_place() {
    assert_eq!(Token::new(TokenType::Plus, "+".to_string(), 1, 5).text(), "Plus(+) at 1:5");
    assert_eq!(Token::new(TokenType::Number, "42.5".to_string(), 2, 10).text(), "Number(42.5) at 2:10");
    assert_eq!(Token::eof(3, 1).text(), "Eof at 3:1");
}
