use calculator::token::{Token, TokenType};

#[test]
fn test_token_creation() {
    let token = Token::new(TokenType::Plus, "+".to_string(), 1, 5);
    assert_eq!(token.token_type, TokenType::Plus);
    assert_eq!(token.lexeme, "+");
    assert_eq!(token.lexeme.parse::<f64>().ok(), None);
    assert_eq!(token.line, 1);
    assert_eq!(token.column, 5);
}

#[test]
fn test_precedence() {
    assert_eq!(TokenType::Plus.precedence(), Some(1));
    assert_eq!(TokenType::Star.precedence(), Some(2));
    assert_eq!(TokenType::Number.precedence(), None);
}

#[test]
fn operator_kinds() {
    assert_eq!(TokenType::Minus.precedence(), Some(1));
    assert_eq!(TokenType::Slash.precedence(), Some(2));
    assert_eq!(TokenType::Eof.precedence(), None);
    assert!(TokenType::Plus.is_binary_op());
    assert!(TokenType::Slash.is_binary_op());
    assert!(!TokenType::LeftParen.is_binary_op());
    assert!(TokenType::Minus.is_unary_op());
    assert!(!TokenType::Plus.is_unary_op());
}

#[test]
fn ordinals_and_names() {
    let all = [
        (TokenType::Number, "Number"),
        (TokenType::Plus, "Plus"),
        (TokenType::Minus, "Minus"),
        (TokenType::Star, "Star"),
        (TokenType::Slash, "Slash"),
        (TokenType::LeftParen, "LeftParen"),
        (TokenType::RightParen, "RightParen"),
        (TokenType::Eof, "Eof"),
    ];
    for (i, (t, name)) in all.iter().enumerate() {
        assert_eq!(t.index(), i);
        assert_eq!(TokenType::from_index(i), *t);
        assert_eq!(t.name(), *name);
        assert_eq!(format!("{:?}", t), *name);
    }
}

#[test]
fn end_token_and_copy() {
    let token = Token::eof(3, 7);
    assert_eq!(token.token_type, TokenType::Eof);
    assert_eq!(token.lexeme, "");
    assert_eq!((token.line, token.column), (3, 7));
    let number = Token::new(TokenType::Number, "42.5".to_string(), 2, 10);
    assert_eq!(number.duplicate(), number);
    assert_eq!(number.lexeme.parse::<f64>().ok(), Some(42.5));
}
