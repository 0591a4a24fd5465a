//! Error types for the calculator parser

use crate::text::{position_of, push_position};
use crate::token::{Token, TokenType, TokenView};
use vstd::prelude::*;
use vstd::string::StringExecFns;

verus! {

/// Result type for parser operations
pub type ParseResult<T> = Result<T, ParseError>;

/// Errors that can occur during parsing
#[derive(Debug, Clone, PartialEq)]
pub enum ParseError {
    /// Unexpected character during lexing
    UnexpectedChar { char: char, line: usize, column: usize },
    /// Unexpected token during parsing
    UnexpectedToken { expected: Vec<TokenType>, found: Token },
    /// Unexpected end of input
    UnexpectedEof { expected: Vec<TokenType> },
    /// Invalid number format
    InvalidNumber { lexeme: String, line: usize, column: usize },
    /// Division by zero
    DivisionByZero { line: usize, column: usize },
    /// Generic syntax error
    SyntaxError { message: String, line: usize, column: usize },
}

/// An error as a mathematical value.
pub enum ParseErrorView {
    UnexpectedChar { char: char, line: usize, column: usize },
    UnexpectedToken { expected: Seq<TokenType>, found: TokenView },
    UnexpectedEof { expected: Seq<TokenType> },
    InvalidNumber { lexeme: Seq<char>, line: usize, column: usize },
    DivisionByZero { line: usize, column: usize },
    SyntaxError { message: Seq<char>, line: usize, column: usize },
}

impl View for ParseError {
    type V = ParseErrorView;

    open spec fn view(&self) -> ParseErrorView {
        match self {
            ParseError::UnexpectedChar { char, line, column } => ParseErrorView::UnexpectedChar {
                char: *char,
                line: *line,
                column: *column,
            },
            ParseError::UnexpectedToken { expected, found } => ParseErrorView::UnexpectedToken {
                expected: expected@,
                found: found@,
            },
            ParseError::UnexpectedEof { expected } => ParseErrorView::UnexpectedEof {
                expected: expected@,
            },
            ParseError::InvalidNumber { lexeme, line, column } => ParseErrorView::InvalidNumber {
                lexeme: lexeme@,
                line: *line,
                column: *column,
            },
            ParseError::DivisionByZero { line, column } => ParseErrorView::DivisionByZero {
                line: *line,
                column: *column,
            },
            ParseError::SyntaxError { message, line, column } => ParseErrorView::SyntaxError {
                message: message@,
                line: *line,
                column: *column,
            },
        }
    }
}

/// The names of the token types, separated by a comma and a space.
pub open spec fn names_of(expected: Seq<TokenType>) -> Seq<char>
    decreases expected.len(),
{
    if expected.len() == 0 {
        Seq::empty()
    } else if expected.len() == 1 {
        expected[0].spec_name()
    } else {
        names_of(expected.drop_last()) + ", "@ + expected.last().spec_name()
    }
}

/// What is expected, as the messages word it: the one name, or `one of` and
/// the names.
pub open spec fn expectation_of(expected: Seq<TokenType>) -> Seq<char> {
    if expected.len() == 1 {
        expected[0].spec_name()
    } else {
        "one of "@ + names_of(expected)
    }
}

/// A token as the messages show it: the type, the text in parentheses if
/// there is any, and the position.
pub open spec fn token_text(token: TokenView) -> Seq<char> {
    token.token_type.spec_name() + (if token.lexeme.len() > 0 {
        "("@ + token.lexeme + ")"@
    } else {
        Seq::empty()
    }) + " at "@ + position_of(token.line, token.column)
}

impl ParseErrorView {
    /// The message of the error.
    pub open spec fn message(self) -> Seq<char> {
        match self {
            ParseErrorView::UnexpectedChar { char, line, column } => "Unexpected character '"@
                + seq![char] + "' at "@ + position_of(line, column),
            ParseErrorView::UnexpectedToken { expected, found } => "Expected "@ + expectation_of(
                expected,
            ) + ", found "@ + token_text(found),
            ParseErrorView::UnexpectedEof { expected } => "Unexpected end of input, expected "@
                + expectation_of(expected),
            ParseErrorView::InvalidNumber { lexeme, line, column } => "Invalid number '"@ + lexeme
                + "' at "@ + position_of(line, column),
            ParseErrorView::DivisionByZero { line, column } => "Division by zero at "@
                + position_of(line, column),
            ParseErrorView::SyntaxError { message, line, column } => "Syntax error at "@
                + position_of(line, column) + ": "@ + message,
        }
    }
}

/// Appends what is expected, as the messages word it.
pub fn push_expectation(text: &mut String, expected: &Vec<TokenType>)
    ensures
        final(text)@ == old(text)@ + expectation_of(expected@),
{
    if expected.len() == 1 {
        text.append(expected[0].name());
    } else {
        text.append("one of ");
        let ghost base = text@;
        let mut i: usize = 0;
        proof {
            assert(expected@.take(0) =~= Seq::<TokenType>::empty());
            assert(text@ =~= base + names_of(expected@.take(0)));
        }
        while i < expected.len()
            invariant
                i <= expected.len(),
                text@ == base + names_of(expected@.take(i as int)),
            decreases expected.len() - i,
        {
            proof {
                let next = expected@.take(i + 1);
                assert(next.drop_last() =~= expected@.take(i as int));
                assert(next.last() == expected@[i as int]);
                if i == 0 {
                    assert(names_of(expected@.take(0)) =~= Seq::<char>::empty());
                } else if i == 1 {
                    assert(expected@.take(1)[0] == expected@[0]);
                }
            }
            if i > 0 {
                text.append(", ");
            }
            text.append(expected[i].name());
            assert(text@ =~= base + names_of(expected@.take(i + 1)));
            i += 1;
        }
        assert(expected@.take(i as int) =~= expected@);
        assert(text@ =~= old(text)@ + expectation_of(expected@));
    }
}

/// Appends a token as the messages show it.
pub fn push_token(text: &mut String, token: &Token)
    ensures
        final(text)@ == old(text)@ + token_text(token@),
{
    text.append(token.token_type.name());
    if token.lexeme.as_str().unicode_len() > 0 {
        text.append("(");
        text.append(token.lexeme.as_str());
        text.append(")");
    }
    text.append(" at ");
    push_position(text, token.line, token.column);
    assert(text@ =~= old(text)@ + token_text(token@));
}

impl Token {
    /// The token as the messages show it.
    pub fn text(&self) -> (text: String)
        ensures
            text@ == token_text(self@),
    {
        let mut text = String::new();
        push_token(&mut text, self);
        text
    }
}

impl ParseError {
    /// Create an unexpected character error
    pub fn unexpected_char(char: char, line: usize, column: usize) -> (e: ParseError)
        ensures
            e@ == (ParseErrorView::UnexpectedChar { char, line, column }),
    {
        ParseError::UnexpectedChar { char, line, column }
    }

    /// Create an unexpected token error
    pub fn unexpected_token(expected: Vec<TokenType>, found: Token) -> (e: ParseError)
        ensures
            e@ == (ParseErrorView::UnexpectedToken { expected: expected@, found: found@ }),
    {
        ParseError::UnexpectedToken { expected, found }
    }

    /// Create an unexpected EOF error
    pub fn unexpected_eof(expected: Vec<TokenType>) -> (e: ParseError)
        ensures
            e@ == (ParseErrorView::UnexpectedEof { expected: expected@ }),
    {
        ParseError::UnexpectedEof { expected }
    }

    /// Create an invalid number error
    pub fn invalid_number(lexeme: String, line: usize, column: usize) -> (e: ParseError)
        ensures
            e@ == (ParseErrorView::InvalidNumber { lexeme: lexeme@, line, column }),
    {
        ParseError::InvalidNumber { lexeme, line, column }
    }

    /// Create a division by zero error
    pub fn division_by_zero(line: usize, column: usize) -> (e: ParseError)
        ensures
            e@ == (ParseErrorView::DivisionByZero { line, column }),
    {
        ParseError::DivisionByZero { line, column }
    }

    /// Create a generic syntax error
    pub fn syntax_error(message: String, line: usize, column: usize) -> (e: ParseError)
        ensures
            e@ == (ParseErrorView::SyntaxError { message: message@, line, column }),
    {
        ParseError::SyntaxError { message, line, column }
    }

    /// The message of the error, as it is shown to the user.
    pub fn message(&self) -> (text: String)
        ensures
            text@ == self@.message(),
    {
        let mut text = String::new();
        match self {
            ParseError::UnexpectedChar { char, line, column } => {
                text.append("Unexpected character '");
                text.push(*char);
                text.append("' at ");
                push_position(&mut text, *line, *column);
            },
            ParseError::UnexpectedToken { expected, found } => {
                text.append("Expected ");
                push_expectation(&mut text, expected);
                text.append(", found ");
                push_token(&mut text, found);
            },
            ParseError::UnexpectedEof { expected } => {
                text.append("Unexpected end of input, expected ");
                push_expectation(&mut text, expected);
            },
            ParseError::InvalidNumber { lexeme, line, column } => {
                text.append("Invalid number '");
                text.append(lexeme.as_str());
                text.append("' at ");
                push_position(&mut text, *line, *column);
            },
            ParseError::DivisionByZero { line, column } => {
                text.append("Division by zero at ");
                push_position(&mut text, *line, *column);
            },
            ParseError::SyntaxError { message, line, column } => {
                text.append("Syntax error at ");
                push_position(&mut text, *line, *column);
                text.append(": ");
                text.append(message.as_str());
            },
        }
        assert(text@ =~= self@.message());
        text
    }
}

} // verus!
