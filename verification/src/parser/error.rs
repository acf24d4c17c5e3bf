use crate::lexer::token::{LexError, Token, TokenView};
use crate::parser::expr::{Expr, ExprView};
use vstd::prelude::*;

verus! {

/// Why a text is not an expression.
#[derive(Debug, PartialEq, Eq)]
pub enum ParseError {
    /// A token of one kind was required and another was found. The parser
    /// raises this where it looks for a closing parenthesis and reports it as
    /// [`ParseError::MissingClosingParenthesis`].
    UnexpectedToken { expected: Token, found: Token },
    /// A parenthesis was opened and not closed.
    MissingClosingParenthesis,
    /// An operand was required where none starts, or a token follows the
    /// expression where the text should end.
    InvalidExpression,
    /// An illegal byte stands where an operand was required, or behind the
    /// expression.
    InvalidToken { token: Token, char: u8 },
    /// The text holds no token at all.
    Empty,
    /// The scanner failed on the text.
    Lexical(LexError),
}

/// The mathematical value of a [`ParseError`].
pub enum ParseErrorView {
    UnexpectedToken { expected: TokenView, found: TokenView },
    MissingClosingParenthesis,
    InvalidExpression,
    InvalidToken { token: TokenView, char: u8 },
    Empty,
    Lexical(LexError),
}

impl View for ParseError {
    type V = ParseErrorView;

    open spec fn view(&self) -> ParseErrorView {
        match self {
            ParseError::UnexpectedToken { expected, found } => ParseErrorView::UnexpectedToken {
                expected: expected@,
                found: found@,
            },
            ParseError::MissingClosingParenthesis => ParseErrorView::MissingClosingParenthesis,
            ParseError::InvalidExpression => ParseErrorView::InvalidExpression,
            ParseError::InvalidToken { token, char } => ParseErrorView::InvalidToken {
                token: token@,
                char: *char,
            },
            ParseError::Empty => ParseErrorView::Empty,
            ParseError::Lexical(error) => ParseErrorView::Lexical(*error),
        }
    }
}

/// The view of what a parse returned.
pub open spec fn outcome_view(outcome: Result<Box<Expr>, ParseError>) -> Result<
    ExprView,
    ParseErrorView,
> {
    match outcome {
        Ok(expr) => Ok(expr@),
        Err(error) => Err(error@),
    }
}

} // verus!
