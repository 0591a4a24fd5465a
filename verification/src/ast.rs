//! Abstract Syntax Tree definitions for calculator expressions

use vstd::prelude::*;
use vstd::string::StringExecFns;

verus! {

/// Binary operators
#[derive(Debug, Clone, Copy, PartialEq, Eq, Structural)]
pub enum BinaryOp {
    Add,
    Subtract,
    Multiply,
    Divide,
}

/// Unary operators
#[derive(Debug, Clone, Copy, PartialEq, Eq, Structural)]
pub enum UnaryOp {
    Negate,
}

/// Expression nodes in the AST
#[derive(Debug, PartialEq)]
pub enum Expr {
    /// Numeric literal, as the decimal text that the source spells
    Number(String),
    /// Binary operation
    Binary { left: Box<Expr>, op: BinaryOp, right: Box<Expr> },
    /// Unary operation
    Unary { op: UnaryOp, operand: Box<Expr> },
}

/// An expression as a mathematical value.
pub enum ExprView {
    Number(Seq<char>),
    Binary { left: Box<ExprView>, op: BinaryOp, right: Box<ExprView> },
    Unary { op: UnaryOp, operand: Box<ExprView> },
}

impl Expr {
    /// The expression as a mathematical value.
    pub open spec fn model(&self) -> ExprView
        decreases self,
    {
        match self {
            Expr::Number(text) => ExprView::Number(text@),
            Expr::Binary { left, op, right } => ExprView::Binary {
                left: Box::new(left.model()),
                op: *op,
                right: Box::new(right.model()),
            },
            Expr::Unary { op, operand } => ExprView::Unary {
                op: *op,
                operand: Box::new(operand.model()),
            },
        }
    }
}

impl View for Expr {
    type V = ExprView;

    open spec fn view(&self) -> ExprView {
        self.model()
    }
}

impl ExprView {
    /// The depth of the expression tree: 1 for a literal, one more than the
    /// deepest operand for an operation.
    pub open spec fn depth(self) -> nat
        decreases self,
    {
        match self {
            ExprView::Number(_) => 1,
            ExprView::Binary { left, op, right } => {
                let l = left.depth();
                let r = right.depth();
                1 + if l >= r {
                    l
                } else {
                    r
                }
            },
            ExprView::Unary { op, operand } => 1 + operand.depth(),
        }
    }

    /// The expression in fully parenthesised form.
    pub open spec fn printed(self) -> Seq<char>
        decreases self,
    {
        match self {
            ExprView::Number(text) => text,
            ExprView::Binary { left, op, right } => seq!['('] + left.printed() + seq![' ']
                + op.spec_symbol() + seq![' '] + right.printed() + seq![')'],
            ExprView::Unary { op, operand } => seq!['('] + op.spec_symbol() + operand.printed()
                + seq![')'],
        }
    }
}

impl Expr {
    /// Create a number expression from the text of a decimal literal
    pub fn number(text: String) -> (e: Expr)
        ensures
            e@ == ExprView::Number(text@),
    {
        Expr::Number(text)
    }

    /// Create a binary expression
    pub fn binary(left: Expr, op: BinaryOp, right: Expr) -> (e: Expr)
        ensures
            e@ == (ExprView::Binary { left: Box::new(left@), op, right: Box::new(right@) }),
    {
        Expr::Binary { left: Box::new(left), op, right: Box::new(right) }
    }

    /// Create a unary expression
    pub fn unary(op: UnaryOp, operand: Expr) -> (e: Expr)
        ensures
            e@ == (ExprView::Unary { op, operand: Box::new(operand@) }),
    {
        Expr::Unary { op, operand: Box::new(operand) }
    }

    /// An expression with the same nodes.
    pub fn duplicate(&self) -> (copy: Expr)
        ensures
            copy@ == self@,
        decreases self,
    {
        match self {
            Expr::Number(text) => Expr::Number(text.clone()),
            Expr::Binary { left, op, right } => Expr::Binary {
                left: Box::new(left.duplicate()),
                op: *op,
                right: Box::new(right.duplicate()),
            },
            Expr::Unary { op, operand } => Expr::Unary {
                op: *op,
                operand: Box::new(operand.duplicate()),
            },
        }
    }

    /// Pretty-print the expression
    pub fn pretty_print(&self) -> (text: String)
        ensures
            text@ == self@.printed(),
        decreases self,
    {
        match self {
            Expr::Number(n) => n.clone(),
            Expr::Binary { left, op, right } => {
                let l = left.pretty_print();
                let r = right.pretty_print();
                proof {
                    reveal_strlit("(");
                    reveal_strlit(" ");
                    reveal_strlit(")");
                }
                let mut text = String::from_str("(");
                text.append(l.as_str());
                text.append(" ");
                text.append(op.symbol());
                text.append(" ");
                text.append(r.as_str());
                text.append(")");
                assert(text@ =~= self@.printed());
                text
            },
            Expr::Unary { op, operand } => {
                let inner = operand.pretty_print();
                proof {
                    reveal_strlit("(");
                    reveal_strlit(")");
                }
                let mut text = String::from_str("(");
                text.append(op.symbol());
                text.append(inner.as_str());
                text.append(")");
                assert(text@ =~= self@.printed());
                text
            },
        }
    }

    /// Get the depth of the expression tree
    pub fn depth(&self) -> (d: usize)
        requires
            self@.depth() <= usize::MAX,
        ensures
            d == self@.depth(),
        decreases self,
    {
        match self {
            Expr::Number(_) => 1,
            Expr::Binary { left, right, .. } => {
                let l = left.depth();
                let r = right.depth();
                1 + if l >= r {
                    l
                } else {
                    r
                }
            },
            Expr::Unary { operand, .. } => 1 + operand.depth(),
        }
    }
}

impl Clone for Expr {
    fn clone(&self) -> (copy: Expr)
        ensures
            copy@ == self@,
    {
        self.duplicate()
    }
}

impl BinaryOp {
    /// The sign of the operator.
    pub open spec fn spec_symbol(self) -> Seq<char> {
        match self {
            BinaryOp::Add => seq!['+'],
            BinaryOp::Subtract => seq!['-'],
            BinaryOp::Multiply => seq!['*'],
            BinaryOp::Divide => seq!['/'],
        }
    }

    /// Get the symbol representation of the operator
    pub fn symbol(&self) -> (s: &'static str)
        ensures
            s@ == self.spec_symbol(),
    {
        proof {
            reveal_strlit("+");
            reveal_strlit("-");
            reveal_strlit("*");
            reveal_strlit("/");
        }
        let s = match self {
            BinaryOp::Add => "+",
            BinaryOp::Subtract => "-",
            BinaryOp::Multiply => "*",
            BinaryOp::Divide => "/",
        };
        assert(s@ =~= self.spec_symbol());
        s
    }

    /// Get the precedence of the operator (higher number = higher precedence)
    pub fn precedence(&self) -> (p: u8)
        ensures
            p == match *self {
                BinaryOp::Add | BinaryOp::Subtract => 1u8,
                BinaryOp::Multiply | BinaryOp::Divide => 2u8,
            },
    {
        match self {
            BinaryOp::Add | BinaryOp::Subtract => 1,
            BinaryOp::Multiply | BinaryOp::Divide => 2,
        }
    }

    /// Check if the operator is left-associative
    pub fn is_left_associative(&self) -> (left: bool)
        ensures
            left,
    {
        true  // All our operators are left-associative
    }
}

impl UnaryOp {
    /// The sign of the operator.
    pub open spec fn spec_symbol(self) -> Seq<char> {
        match self {
            UnaryOp::Negate => seq!['-'],
        }
    }

    /// Get the symbol representation of the operator
    pub fn symbol(&self) -> (s: &'static str)
        ensures
            s@ == self.spec_symbol(),
    {
        proof {
            reveal_strlit("-");
        }
        let s = match self {
            UnaryOp::Negate => "-",
        };
        assert(s@ =~= self.spec_symbol());
        s
    }
}

} // verus!
