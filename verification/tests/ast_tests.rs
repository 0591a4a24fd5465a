use calculator::ast::{BinaryOp, Expr, UnaryOp};

fn number(value: f64) -> Expr {
    Expr::number(value.to_string())
}

fn evaluate(expr: &Expr) -> f64 {
    match expr {
        Expr::Number(text) => text.parse::<f64>().unwrap(),
        Expr::Binary { left, op, right } => {
            let left_val = evaluate(left);
            let right_val = evaluate(right);
            match op {
                BinaryOp::Add => left_val + right_val,
                BinaryOp::Subtract => left_val - right_val,
                BinaryOp::Multiply => left_val * right_val,
                BinaryOp::Divide => left_val / right_val,
            }
        }
        Expr::Unary { op, operand } => match op {
            UnaryOp::Negate => -evaluate(operand),
        },
    }
}

#[test]
fn test_expr_creation() {
    let expr = Expr::binary(number(2.0), BinaryOp::Add, number(3.0));

    assert_eq!(evaluate(&expr), 5.0);
    assert_eq!(expr.pretty_print(), "(2 + 3)");
}

#[test]
fn test_complex_expression() {
    // (2 + 3) * 4
    let expr = Expr::binary(
        Expr::binary(number(2.0), BinaryOp::Add, number(3.0)),
        BinaryOp::Multiply,
        number(4.0),
    );

    assert_eq!(evaluate(&expr), 20.0);
    assert_eq!(expr.pretty_print(), "((2 + 3) * 4)");
    assert_eq!(expr.depth(), 3);
}

#[test]
fn test_unary_expression() {
    let expr = Expr::unary(UnaryOp::Negate, number(5.0));

    assert_eq!(evaluate(&expr), -5.0);
    assert_eq!(expr.pretty_print(), "(-5)");
}

#[test]
fn test_operator_precedence() {
    assert!(BinaryOp::Multiply.precedence() > BinaryOp::Add.precedence());
    assert_eq!(BinaryOp::Add.precedence(), BinaryOp::Subtract.precedence());
}

#[test]
fn operator_symbols_and_associativity() {
    assert_eq!(BinaryOp::Add.symbol(), "+");
    assert_eq!(BinaryOp::Subtract.symbol(), "-");
    assert_eq!(BinaryOp::Multiply.symbol(), "*");
    assert_eq!(BinaryOp::Divide.symbol(), "/");
    assert_eq!(UnaryOp::Negate.symbol(), "-");
    assert_eq!(BinaryOp::Add.precedence(), 1);
    assert_eq!(BinaryOp::Divide.precedence(), 2);
    for op in [BinaryOp::Add, BinaryOp::Subtract, BinaryOp::Multiply, BinaryOp::Divide] {
        assert!(op.is_left_associative());
    }
}

#[test]
fn depth_counts_the_longest_branch() {
    assert_eq!(number(1.0).depth(), 1);
    let expr = Expr::binary(
        number(1.0),
        BinaryOp::Subtract,
        Expr::unary(UnaryOp::Negate, Expr::unary(UnaryOp::Negate, number(2.0))),
    );
    assert_eq!(expr.depth(), 4);
    assert_eq!(expr.pretty_print(), "(1 - (-(-2)))");
}

#[test]
fn a_number_prints_as_its_text() {
    assert_eq!(Expr::number("2.50".to_string()).pretty_print(), "2.50");
    assert_eq!(
        Expr::number("2.50".to_string()),
        Expr::Number("2.50".to_string())
    );
}

#[test]
fn a_copy_has_the_same_nodes() {
    let expr = Expr::binary(
        number(1.5),
        BinaryOp::Divide,
        Expr::unary(UnaryOp::Negate, number(2.0)),
    );
    assert_eq!(expr.clone(), expr);
    assert_eq!(expr.duplicate(), expr);
    assert_eq!(expr.clone().pretty_print(), "(1.5 / (-2))");
}
