//! A calculator for arithmetic expressions, built on a table-driven LR(1)
//! parser.
//!
//! - [`grammar`] holds the grammar with its FIRST and FOLLOW sets, which
//!   [`first_follow`] defines.
//! - [`lr_table`] builds the canonical collection of LR(1) states and the
//!   action and goto tables; [`automaton`] says what they are, [`item_set`]
//!   and [`table`] hold them, and [`listing`] shows them.
//! - [`lexer`] turns a text into tokens, and [`parser`] runs the shift-reduce
//!   machine over them and builds the syntax tree of [`ast`].
//! - [`language`] says which expression a sequence of tokens spells. The
//!   parser gives that expression where there is one, and an error where
//!   there is none: [`conflicts`] shows that the table has no conflict, and
//!   [`complete`] that the machine then accepts whatever spells an
//!   expression.
//! - [`theorems`] holds what is true of the tables: construction is
//!   deterministic, and the table of an augmented grammar has one accepting
//!   entry.

pub mod ast;
pub mod automaton;
pub mod complete;
pub mod conflicts;
pub mod error;
pub mod first_follow;
pub mod grammar;
pub mod item_set;
pub mod language;
pub mod lexer;
pub mod listing;
pub mod lr_table;
pub mod parser;
pub mod table;
pub mod text;
pub mod theorems;
pub mod token;

pub use ast::{BinaryOp, Expr, UnaryOp};
pub use error::{ParseError, ParseResult};
pub use lexer::Lexer;
pub use parser::Parser;
pub use token::Token;
