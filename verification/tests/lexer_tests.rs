use calculator::error::ParseError;
use calculator::lexer::Lexer;
use calculator::token::{Token, TokenType};

fn value(token: &Token) -> Option<f64> {
    if token.token_type == TokenType::Number {
        token.lexeme.parse::<f64>().ok()
    } else {
        None
    }
}

#[test]
fn test_tokenize_simple() {
    let mut lexer = Lexer::new("2 + 3");
    let tokens = lexer.tokenize().unwrap();

    assert_eq!(tokens.len(), 4); // 2, +, 3, EOF
    assert_eq!(tokens[0].token_type, TokenType::Number);
    assert_eq!(value(&tokens[0]), Some(2.0));
    assert_eq!(tokens[1].token_type, TokenType::Plus);
    assert_eq!(tokens[2].token_type, TokenType::Number);
    assert_eq!(value(&tokens[2]), Some(3.0));
    assert_eq!(tokens[3].token_type, TokenType::Eof);
}

#[test]
fn test_tokenize_complex() {
    let mut lexer = Lexer::new("(2.5 + 3) * -4");
    let tokens = lexer.tokenize().unwrap();

    assert_eq!(tokens.len(), 9); // (, 2.5, +, 3, ), *, -, 4, EOF
    assert_eq!(tokens[0].token_type, TokenType::LeftParen);
    assert_eq!(tokens[1].token_type, TokenType::Number);
    assert_eq!(value(&tokens[1]), Some(2.5));
    assert_eq!(tokens[2].token_type, TokenType::Plus);
    assert_eq!(tokens[3].token_type, TokenType::Number);
    assert_eq!(tokens[4].token_type, TokenType::RightParen);
    assert_eq!(tokens[5].token_type, TokenType::Star);
    assert_eq!(tokens[6].token_type, TokenType::Minus);
    assert_eq!(tokens[7].token_type, TokenType::Number);
    assert_eq!(tokens[8].token_type, TokenType::Eof);
}

#[test]
fn test_position_tracking() {
    let mut lexer = Lexer::new("2 +\n  3");
    let tokens = lexer.tokenize().unwrap();

    assert_eq!(tokens[0].line, 1);
    assert_eq!(tokens[0].column, 1);
    assert_eq!(tokens[1].line, 1);
    assert_eq!(tokens[1].column, 3);
    assert_eq!(tokens[2].line, 2);
    assert_eq!(tokens[2].column, 3);
}

#[test]
fn test_invalid_character() {
    let mut lexer = Lexer::new("2 @ 3");
    let result = lexer.tokenize();

    assert!(result.is_err());
    if let Err(ParseError::UnexpectedChar { char, line, column }) = result {
        assert_eq!(char, '@');
        assert_eq!(line, 1);
        assert_eq!(column, 3);
    } else {
        panic!("Expected UnexpectedChar error");
    }
}

#[test]
fn empty_input_gives_the_end_token() {
    let tokens = Lexer::new("").tokenize().unwrap();
    assert_eq!(tokens, vec![Token::eof(1, 1)]);
    let tokens = Lexer::new(" \t\r\n ").tokenize().unwrap();
    assert_eq!(tokens, vec![Token::eof(2, 2)]);
}

#[test]
fn lexemes_are_the_text_as_written() {
    let tokens = Lexer::new("007.50*(x").tokenize();
    assert_eq!(tokens, Err(ParseError::unexpected_char('x', 1, 9)));
    let tokens = Lexer::new("007.50*(").tokenize().unwrap();
    assert_eq!(
        tokens,
        vec![
            Token::new(TokenType::Number, "007.50".to_string(), 1, 1),
            Token::new(TokenType::Star, "*".to_string(), 1, 7),
            Token::new(TokenType::LeftParen, "(".to_string(), 1, 8),
            Token::eof(1, 9),
        ]
    );
}

#[test]
fn a_point_belongs_to_a_number_only_before_a_digit() {
    assert_eq!(
        Lexer::new("1.").tokenize(),
        Err(ParseError::unexpected_char('.', 1, 2))
    );
    assert_eq!(
        Lexer::new("1.2.3").tokenize(),
        Err(ParseError::unexpected_char('.', 1, 4))
    );
    assert_eq!(
        Lexer::new(".5").tokenize(),
        Err(ParseError::unexpected_char('.', 1, 1))
    );
    let tokens = Lexer::new("12.5/3").tokenize().unwrap();
    assert_eq!(tokens[0], Token::new(TokenType::Number, "12.5".to_string(), 1, 1));
    assert_eq!(tokens[1], Token::new(TokenType::Slash, "/".to_string(), 1, 5));
    assert_eq!(tokens[2], Token::new(TokenType::Number, "3".to_string(), 1, 6));
}

#[test]
fn next_token_and_next_step_through_the_input() {
    let mut lexer = Lexer::new(" 4 )");
    assert_eq!(
        lexer.next_token(),
        Ok(Token::new(TokenType::Number, "4".to_string(), 1, 2))
    );
    assert_eq!(
        lexer.next(),
        Some(Ok(Token::new(TokenType::RightParen, ")".to_string(), 1, 4)))
    );
    assert!(lexer.is_at_end());
    assert_eq!(lexer.next(), None);
    assert_eq!(lexer.next_token(), Ok(Token::eof(1, 5)));
    assert_eq!(lexer.peek(), None);
    assert_eq!(lexer.peek_next(), None);
}

#[test]
fn peek_and_advance() {
    let mut lexer = Lexer::new("+\n-");
    assert_eq!(lexer.peek(), Some('+'));
    assert_eq!(lexer.peek_next(), Some('\n'));
    assert_eq!(lexer.advance(), '+');
    lexer.skip_whitespace();
    assert_eq!(lexer.peek(), Some('-'));
    assert_eq!(
        lexer.next_token(),
        Ok(Token::new(TokenType::Minus, "-".to_string(), 2, 1))
    );
}
