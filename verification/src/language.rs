//! The calculator language: which expression a sequence of tokens spells.

use crate::ast::{BinaryOp, ExprView, UnaryOp};
use crate::grammar::NonTerminal;
use crate::token::{TokenType, TokenView};
use vstd::prelude::*;

verus! {

/// How far a non-terminal is from a factor in the chain of the rules
/// `E -> T`, `T -> F`.
pub open spec fn level(n: NonTerminal) -> nat {
    match n {
        NonTerminal::Start => 3,
        NonTerminal::Expr => 2,
        NonTerminal::Term => 1,
        NonTerminal::Factor => 0,
    }
}

/// The operator of a sum: `+` or `-`.
pub open spec fn additive(t: TokenType) -> Option<BinaryOp> {
    match t {
        TokenType::Plus => Some(BinaryOp::Add),
        TokenType::Minus => Some(BinaryOp::Subtract),
        _ => None,
    }
}

/// The operator of a product: `*` or `/`.
pub open spec fn multiplicative(t: TokenType) -> Option<BinaryOp> {
    match t {
        TokenType::Star => Some(BinaryOp::Multiply),
        TokenType::Slash => Some(BinaryOp::Divide),
        _ => None,
    }
}

/// The tokens, read as the non-terminal, spell the expression.
///
/// A factor is a number, a factor with a minus sign in front, or an
/// expression in parentheses. A term is a factor, or a term, `*` or `/`, and
/// a factor. An expression is a term, or an expression, `+` or `-`, and a
/// term. So `*` and `/` bind more tightly than `+` and `-`, and operators of
/// one level group to the left.
pub open spec fn spells(n: NonTerminal, e: ExprView, tokens: Seq<TokenView>) -> bool
    decreases tokens.len(), level(n),
{
    match n {
        NonTerminal::Start => spells(NonTerminal::Expr, e, tokens),
        NonTerminal::Expr => {
            ||| spells(NonTerminal::Term, e, tokens)
            ||| exists|k: int|
                0 < k < tokens.len() - 1 && additive((#[trigger] tokens[k]).token_type) is Some
                    && e is Binary && e->Binary_op == additive(tokens[k].token_type)->Some_0
                    && spells(NonTerminal::Expr, *e->left, tokens.take(k)) && spells(
                    NonTerminal::Term,
                    *e->right,
                    tokens.skip(k + 1),
                )
        },
        NonTerminal::Term => {
            ||| spells(NonTerminal::Factor, e, tokens)
            ||| exists|k: int|
                0 < k < tokens.len() - 1
                    && multiplicative((#[trigger] tokens[k]).token_type) is Some
                    && e is Binary && e->Binary_op == multiplicative(tokens[k].token_type)->Some_0
                    && spells(NonTerminal::Term, *e->left, tokens.take(k)) && spells(
                    NonTerminal::Factor,
                    *e->right,
                    tokens.skip(k + 1),
                )
        },
        NonTerminal::Factor => {
            ||| (tokens.len() == 1 && tokens[0].token_type == TokenType::Number && e
                == ExprView::Number(tokens[0].lexeme))
            ||| (tokens.len() >= 2 && tokens[0].token_type == TokenType::Minus && e is Unary
                && e->Unary_op == UnaryOp::Negate && spells(
                NonTerminal::Factor,
                *e->operand,
                tokens.skip(1),
            ))
            ||| (tokens.len() >= 3 && tokens[0].token_type == TokenType::LeftParen
                && tokens.last().token_type == TokenType::RightParen && spells(
                NonTerminal::Expr,
                e,
                tokens.subrange(1, tokens.len() - 1),
            ))
        },
    }
}

/// No expression is spelled by nothing.
pub proof fn lemma_spells_nonempty(n: NonTerminal, e: ExprView, tokens: Seq<TokenView>)
    requires
        spells(n, e, tokens),
    ensures
        tokens.len() > 0,
    decreases tokens.len(), level(n),
{
    match n {
        NonTerminal::Start => {
            lemma_spells_nonempty(NonTerminal::Expr, e, tokens);
        },
        NonTerminal::Expr => {
            if spells(NonTerminal::Term, e, tokens) {
                lemma_spells_nonempty(NonTerminal::Term, e, tokens);
            }
        },
        NonTerminal::Term => {
            if spells(NonTerminal::Factor, e, tokens) {
                lemma_spells_nonempty(NonTerminal::Factor, e, tokens);
            }
        },
        NonTerminal::Factor => {},
    }
}

/// The value that a token brings to the parse: a number brings its text.
pub open spec fn token_value(token: TokenView) -> Option<ExprView> {
    if token.token_type == TokenType::Number {
        Some(ExprView::Number(token.lexeme))
    } else {
        None
    }
}

/// The value that a rule makes of the values of its right-hand side: a
/// number, a parenthesised expression and the single symbol of `E -> T` and
/// `T -> F` are passed on; an operator makes a node of its operands.
pub open spec fn rule_value(p: int, kids: Seq<Option<ExprView>>) -> Option<ExprView> {
    if (p == 3 || p == 6 || p == 8) && kids.len() == 1 {
        kids[0]
    } else if p == 7 && kids.len() == 3 {
        kids[1]
    } else if p == 9 && kids.len() == 2 && kids[1] is Some {
        Some(ExprView::Unary { op: UnaryOp::Negate, operand: Box::new(kids[1]->Some_0) })
    } else if (p == 1 || p == 2 || p == 4 || p == 5) && kids.len() == 3 && kids[0] is Some
        && kids[2] is Some {
        Some(
            ExprView::Binary {
                left: Box::new(kids[0]->Some_0),
                op: rule_operator(p),
                right: Box::new(kids[2]->Some_0),
            },
        )
    } else {
        None
    }
}

/// The operator of the rules `E -> E + T`, `E -> E - T`, `T -> T * F` and
/// `T -> T / F`.
pub open spec fn rule_operator(p: int) -> BinaryOp {
    if p == 1 {
        BinaryOp::Add
    } else if p == 2 {
        BinaryOp::Subtract
    } else if p == 4 {
        BinaryOp::Multiply
    } else {
        BinaryOp::Divide
    }
}

} // verus!
