use calculator::{BinaryOp, Expr, Lexer, ParseError, ParseResult, Parser, Token, UnaryOp};
use calculator::token::TokenType;

fn evaluate_tree(expr: &Expr) -> f64 {
    match expr {
        Expr::Number(text) => text.parse::<f64>().unwrap(),
        Expr::Binary { left, op, right } => {
            let left_val = evaluate_tree(left);
            let right_val = evaluate_tree(right);
            match op {
                BinaryOp::Add => left_val + right_val,
                BinaryOp::Subtract => left_val - right_val,
                BinaryOp::Multiply => left_val * right_val,
                BinaryOp::Divide => left_val / right_val,
            }
        }
        Expr::Unary { op, operand } => match op {
            UnaryOp::Negate => -evaluate_tree(operand),
        },
    }
}

// Parse and evaluate an expression
fn evaluate(input: &str) -> ParseResult<f64> {
    let parser = Parser::new();
    let expr = parser.parse(input)?;
    Ok(evaluate_tree(&expr))
}

fn num(text: &str) -> Expr {
    Expr::number(text.to_string())
}

#[test]
fn test_basic_evaluation() {
    assert_eq!(evaluate("2 + 3").unwrap(), 5.0);
    assert_eq!(evaluate("2 * 3 + 4").unwrap(), 10.0);
    assert_eq!(evaluate("2 + 3 * 4").unwrap(), 14.0);
    assert_eq!(evaluate("(2 + 3) * 4").unwrap(), 20.0);
}

#[test]
fn test_example_expressions() {
    // Test that all example expressions parse correctly
    let expressions = vec![
        ("42", 42.0),
        ("2 + 3", 5.0),
        ("2 + 3 * 4", 14.0),
        ("(2 + 3) * 4", 20.0),
        ("10 / 2 - 3", 2.0),
        ("-5 + 3", -2.0),
        ("-(2 + 3) * 4", -20.0),
        ("((1 + 2) * (3 + 4)) / 5", 4.2),
        ("2.5 * 4 + 1.5", 11.5),
    ];

    for (expr, expected) in expressions {
        let result = evaluate(expr).unwrap();
        assert!(
            (result - expected).abs() < 0.0001,
            "Expression '{}' evaluated to {} but expected {}",
            expr,
            result,
            expected
        );
    }
}

#[test]
fn round_trip_values() {
    assert_eq!(evaluate("2 + 3").unwrap(), 5.0);
    assert_eq!(evaluate("2 * 3 + 4").unwrap(), 10.0);
    assert_eq!(evaluate("(2 + 3) * 4").unwrap(), 20.0);
    assert_eq!(evaluate("-5 + 3").unwrap(), -2.0);
    assert_eq!(evaluate("((1 + 2) * (3 + 4)) / 5").unwrap(), 4.2);
}

#[test]
fn multiplication_nests_under_addition() {
    let parser = Parser::new();
    let tree = parser.parse("2 + 3 * 4").unwrap();
    assert_eq!(
        tree,
        Expr::binary(
            num("2"),
            BinaryOp::Add,
            Expr::binary(num("3"), BinaryOp::Multiply, num("4"))
        )
    );
    assert_eq!(tree.pretty_print(), "(2 + (3 * 4))");
    assert_eq!(tree.depth(), 3);
}

#[test]
fn operators_group_to_the_left() {
    let parser = Parser::new();
    assert_eq!(parser.parse("8 - 3 - 2").unwrap().pretty_print(), "((8 - 3) - 2)");
    assert_eq!(parser.parse("8 / 4 / 2").unwrap().pretty_print(), "((8 / 4) / 2)");
    assert_eq!(parser.parse("1 - 2 * 3 + 4").unwrap().pretty_print(), "((1 - (2 * 3)) + 4)");
    assert_eq!(parser.parse("--3").unwrap().pretty_print(), "(-(-3))");
    assert_eq!(parser.parse("2 * -3").unwrap().pretty_print(), "(2 * (-3))");
    assert_eq!(parser.parse("-2 * 3").unwrap().pretty_print(), "((-2) * 3)");
    assert_eq!(parser.parse("((7))").unwrap(), num("7"));
}

#[test]
fn a_parser_can_be_used_again() {
    let parser = Parser::new();
    assert_eq!(parser.parse("1 + 2").unwrap().pretty_print(), "(1 + 2)");
    assert!(parser.parse("1 +").is_err());
    assert_eq!(parser.parse("1 + 2").unwrap().pretty_print(), "(1 + 2)");
}

#[test]
fn missing_operand_is_an_unexpected_end_of_input() {
    let expected = vec![TokenType::Number, TokenType::Minus, TokenType::LeftParen];
    assert_eq!(evaluate("2 +"), Err(ParseError::unexpected_eof(expected.clone())));
    assert_eq!(evaluate(""), Err(ParseError::unexpected_eof(expected)));
    let message = evaluate("2 +").unwrap_err().message();
    assert_eq!(
        message,
        "Unexpected end of input, expected one of Number, Minus, LeftParen"
    );
}

#[test]
fn invalid_character_is_a_lexical_error() {
    assert_eq!(evaluate("2 @ 3"), Err(ParseError::unexpected_char('@', 1, 3)));
    assert_eq!(
        evaluate("2 @ 3").unwrap_err().message(),
        "Unexpected character '@' at 1:3"
    );
}

#[test]
fn missing_parenthesis_expects_a_parenthesis_or_an_operator() {
    let error = evaluate("(2 + 3").unwrap_err();
    assert_eq!(
        error,
        ParseError::unexpected_eof(vec![
            TokenType::Plus,
            TokenType::Minus,
            TokenType::Star,
            TokenType::Slash,
            TokenType::RightParen,
        ])
    );
}

#[test]
fn an_unexpected_token_is_named_with_its_place() {
    assert_eq!(
        evaluate("2 + + 3"),
        Err(ParseError::unexpected_token(
            vec![TokenType::Number, TokenType::Minus, TokenType::LeftParen],
            Token::new(TokenType::Plus, "+".to_string(), 1, 5)
        ))
    );
    assert_eq!(
        evaluate("2 + (3 * )"),
        Err(ParseError::unexpected_token(
            vec![TokenType::Number, TokenType::Minus, TokenType::LeftParen],
            Token::new(TokenType::RightParen, ")".to_string(), 1, 10)
        ))
    );
    assert_eq!(
        evaluate("2 3"),
        Err(ParseError::unexpected_token(
            vec![
                TokenType::Plus,
                TokenType::Minus,
                TokenType::Star,
                TokenType::Slash,
                TokenType::Eof
            ],
            Token::new(TokenType::Number, "3".to_string(), 1, 3)
        ))
    );
    assert_eq!(
        evaluate("2)"),
        Err(ParseError::unexpected_token(
            vec![
                TokenType::Plus,
                TokenType::Minus,
                TokenType::Star,
                TokenType::Slash,
                TokenType::Eof
            ],
            Token::new(TokenType::RightParen, ")".to_string(), 1, 2)
        ))
    );
}

#[test]
fn tokens_without_an_end_token_end_too_early() {
    let parser = Parser::new();
    let mut tokens = Lexer::new("1 + 2").tokenize().unwrap();
    assert_eq!(parser.parse_tokens(&tokens).unwrap().pretty_print(), "(1 + 2)");
    tokens.pop();
    assert_eq!(
        parser.parse_tokens(&tokens),
        Err(ParseError::unexpected_eof(vec![
            TokenType::Plus,
            TokenType::Minus,
            TokenType::Star,
            TokenType::Slash,
            TokenType::Eof
        ]))
    );
    assert_eq!(
        parser.parse_tokens(&Vec::new()),
        Err(ParseError::unexpected_eof(vec![
            TokenType::Number,
            TokenType::Minus,
            TokenType::LeftParen
        ]))
    );
}

#[test]
fn tokens_behind_the_end_token_are_not_read() {
    let parser = Parser::new();
    let mut tokens = Lexer::new("1 + 2").tokenize().unwrap();
    tokens.push(Token::new(TokenType::Plus, "+".to_string(), 1, 7));
    assert_eq!(parser.parse_tokens(&tokens).unwrap().pretty_print(), "(1 + 2)");
}

#[test]
fn semantic_actions() {
    assert_eq!(Parser::apply(8, vec![Some(num("5"))]), Some(num("5")));
    assert_eq!(Parser::apply(3, vec![Some(num("5"))]), Some(num("5")));
    assert_eq!(Parser::apply(7, vec![None, Some(num("5")), None]), Some(num("5")));
    assert_eq!(
        Parser::apply(9, vec![None, Some(num("5"))]),
        Some(Expr::unary(UnaryOp::Negate, num("5")))
    );
    assert_eq!(
        Parser::apply(1, vec![Some(num("1")), None, Some(num("2"))]),
        Some(Expr::binary(num("1"), BinaryOp::Add, num("2")))
    );
    assert_eq!(
        Parser::apply(2, vec![Some(num("1")), None, Some(num("2"))]),
        Some(Expr::binary(num("1"), BinaryOp::Subtract, num("2")))
    );
    assert_eq!(
        Parser::apply(4, vec![Some(num("1")), None, Some(num("2"))]),
        Some(Expr::binary(num("1"), BinaryOp::Multiply, num("2")))
    );
    assert_eq!(
        Parser::apply(5, vec![Some(num("1")), None, Some(num("2"))]),
        Some(Expr::binary(num("1"), BinaryOp::Divide, num("2")))
    );
    assert_eq!(Parser::apply(0, vec![Some(num("1"))]), None);
    assert_eq!(Parser::apply(1, vec![Some(num("1")), None]), None);
}

#[test]
fn expected_terminals_of_the_first_state() {
    let parser = Parser::new();
    assert_eq!(
        parser.expected_terminals(0),
        vec![TokenType::Number, TokenType::Minus, TokenType::LeftParen]
    );
    assert_eq!(parser.expected_terminals(parser.table.states.len()), vec![]);
}

#[test]
fn the_table_of_the_calculator_has_no_conflict() {
    let parser = Parser::new();
    assert!(parser.table.is_deterministic());
    for state in 0..parser.table.states.len() {
        for t in [TokenType::Number, TokenType::Plus, TokenType::RightParen, TokenType::Eof] {
            assert!(parser.table.cell_is_clear(state, t));
        }
    }
}
