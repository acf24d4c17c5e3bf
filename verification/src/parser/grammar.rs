//! The grammar as mathematics: which tree, or which error, a stream of
//! lexemes stands for.
//!
//! ```text
//! primary        := INTEGER | FLOAT | '(' addition ')'
//! unary          := '-' primary | primary
//! multiplicative := unary ( ('*' | '/') unary | '(' addition ')' )*
//! addition       := multiplicative ( ('+' | '-') multiplicative )*
//! expression     := addition END
//! ```
//!
//! A stream is a sequence of lexemes, `ts`, and a place in it, `i`. Behind the
//! last lexeme the stream yields the end marker for ever. Each function reads
//! the stream from `i` on and says what was recognised and how many lexemes it
//! took. Moving past a lexeme fails if the scanner failed on the lexeme behind
//! it: a scanner failure ends the parse where the parser first sees it.

use crate::lexer::token::{LexError, LexemeView, TokenView};
use crate::parser::error::ParseErrorView;
use crate::parser::expr::ExprView;
use vstd::prelude::*;

verus! {

/// What a parse from one place in a stream comes to.
pub struct Parsed {
    /// The tree that was recognised, or why none was.
    pub result: Result<ExprView, ParseErrorView>,
    /// How many lexemes the parse moved past.
    pub consumed: nat,
}

/// The lexeme at place `i`: the end marker behind the last lexeme.
pub open spec fn peek(ts: Seq<LexemeView>, i: nat) -> LexemeView {
    if i < ts.len() {
        ts[i as int]
    } else {
        Ok(TokenView::EOF)
    }
}

/// How many lexemes stand at `i` and behind it.
pub open spec fn ahead(ts: Seq<LexemeView>, i: nat) -> nat {
    if i < ts.len() {
        (ts.len() - i) as nat
    } else {
        0
    }
}

/// The place behind `i`. Behind the last lexeme there is no further place.
pub open spec fn next(ts: Seq<LexemeView>, i: nat) -> nat {
    if i < ts.len() {
        i + 1
    } else {
        i
    }
}

/// Moving past the lexeme at `i`: it fails if the scanner failed on the lexeme
/// behind it.
pub open spec fn step(ts: Seq<LexemeView>, i: nat) -> Result<(), ParseErrorView> {
    match peek(ts, next(ts, i)) {
        Err(error) => Err(ParseErrorView::Lexical(error)),
        Ok(_) => Ok(()),
    }
}

/// A parse that failed with `error` after `consumed` lexemes.
pub open spec fn failed(error: ParseErrorView, consumed: nat) -> Parsed {
    Parsed { result: Err(error), consumed }
}

/// A parse that recognised `expr` in `consumed` lexemes.
pub open spec fn recognised(expr: ExprView, consumed: nat) -> Parsed {
    Parsed { result: Ok(expr), consumed }
}

/// A literal: the one lexeme at `i`, which stands for `expr`.
pub open spec fn literal(ts: Seq<LexemeView>, i: nat, expr: ExprView) -> Parsed {
    match step(ts, i) {
        Err(error) => failed(error, 1),
        Ok(_) => recognised(expr, 1),
    }
}

/// `parsed`, reached after `before` more lexemes.
pub open spec fn behind(before: nat, parsed: Parsed) -> Parsed {
    Parsed { result: parsed.result, consumed: before + parsed.consumed }
}

/// The inside of a pair of parentheses and the closing parenthesis, from the
/// place `i` behind the opening one.
pub open spec fn group(ts: Seq<LexemeView>, i: nat) -> Parsed
    decreases ahead(ts, i), 6nat,
{
    let inner = addition(ts, i);
    match inner.result {
        Err(error) => failed(error, inner.consumed),
        Ok(expr) => match peek(ts, i + inner.consumed) {
            Ok(TokenView::RightParen) => match step(ts, i + inner.consumed) {
                Err(error) => failed(error, inner.consumed + 1),
                Ok(_) => recognised(ExprView::Grouping(Box::new(expr)), inner.consumed + 1),
            },
            Ok(_) => failed(ParseErrorView::MissingClosingParenthesis, inner.consumed),
            Err(error) => failed(ParseErrorView::Lexical(error), inner.consumed),
        },
    }
}

/// A literal or an expression in parentheses.
pub open spec fn primary(ts: Seq<LexemeView>, i: nat) -> Parsed
    decreases ahead(ts, i), 0nat,
{
    match peek(ts, i) {
        Ok(TokenView::Integer(value)) => literal(ts, i, ExprView::Int(value)),
        Ok(TokenView::Float(digits)) => literal(ts, i, ExprView::Float(digits)),
        Ok(TokenView::LeftParen) => match step(ts, i) {
            Err(error) => failed(error, 1),
            Ok(_) => behind(1, group(ts, i + 1)),
        },
        Ok(TokenView::Illegal(byte)) => failed(
            ParseErrorView::InvalidToken { token: TokenView::Illegal(byte), char: byte },
            0,
        ),
        Ok(_) => failed(ParseErrorView::InvalidExpression, 0),
        Err(error) => failed(ParseErrorView::Lexical(error), 0),
    }
}

/// A primary, or the negation of one. Only one minus sign is taken.
pub open spec fn unary(ts: Seq<LexemeView>, i: nat) -> Parsed
    decreases ahead(ts, i), 1nat,
{
    match peek(ts, i) {
        Ok(TokenView::Minus) => match step(ts, i) {
            Err(error) => failed(error, 1),
            Ok(_) => {
                let operand = primary(ts, i + 1);
                match operand.result {
                    Err(error) => failed(error, 1 + operand.consumed),
                    Ok(right) => recognised(
                        ExprView::Unary { op: TokenView::Minus, right: Box::new(right) },
                        1 + operand.consumed,
                    ),
                }
            },
        },
        _ => primary(ts, i),
    }
}

/// The product or quotient of `operand` and the factors that follow at `i`,
/// taken from left to right.
///
/// An opening parenthesis where an operator could stand multiplies: the
/// parenthesised expression behind it is the right operand, as if a `*` stood
/// before the parenthesis.
pub open spec fn factors(ts: Seq<LexemeView>, i: nat, operand: ExprView) -> Parsed
    decreases ahead(ts, i), 2nat,
{
    match peek(ts, i) {
        Ok(TokenView::Star) | Ok(TokenView::Slash) => match step(ts, i) {
            Err(error) => failed(error, 1),
            Ok(_) => {
                let factor = unary(ts, i + 1);
                match factor.result {
                    Err(error) => failed(error, 1 + factor.consumed),
                    Ok(right) => behind(
                        1 + factor.consumed,
                        factors(
                            ts,
                            i + 1 + factor.consumed,
                            ExprView::Binary {
                                left: Box::new(operand),
                                op: peek(ts, i)->Ok_0,
                                right: Box::new(right),
                            },
                        ),
                    ),
                }
            },
        },
        Ok(TokenView::LeftParen) => match step(ts, i) {
            Err(error) => failed(error, 1),
            Ok(_) => {
                let factor = group(ts, i + 1);
                match factor.result {
                    Err(error) => failed(error, 1 + factor.consumed),
                    Ok(right) => behind(
                        1 + factor.consumed,
                        factors(
                            ts,
                            i + 1 + factor.consumed,
                            ExprView::Binary {
                                left: Box::new(operand),
                                op: TokenView::Star,
                                right: Box::new(right),
                            },
                        ),
                    ),
                }
            },
        },
        _ => recognised(operand, 0),
    }
}

/// A unary expression and the factors that follow it.
pub open spec fn multiplicative(ts: Seq<LexemeView>, i: nat) -> Parsed
    decreases ahead(ts, i), 3nat,
{
    let first = unary(ts, i);
    match first.result {
        Err(error) => failed(error, first.consumed),
        Ok(operand) => behind(first.consumed, factors(ts, i + first.consumed, operand)),
    }
}

/// The sum or difference of `operand` and the terms that follow at `i`, taken
/// from left to right.
pub open spec fn terms(ts: Seq<LexemeView>, i: nat, operand: ExprView) -> Parsed
    decreases ahead(ts, i), 4nat,
{
    match peek(ts, i) {
        Ok(TokenView::Plus) | Ok(TokenView::Minus) => match step(ts, i) {
            Err(error) => failed(error, 1),
            Ok(_) => {
                let term = multiplicative(ts, i + 1);
                match term.result {
                    Err(error) => failed(error, 1 + term.consumed),
                    Ok(right) => behind(
                        1 + term.consumed,
                        terms(
                            ts,
                            i + 1 + term.consumed,
                            ExprView::Binary {
                                left: Box::new(operand),
                                op: peek(ts, i)->Ok_0,
                                right: Box::new(right),
                            },
                        ),
                    ),
                }
            },
        },
        _ => recognised(operand, 0),
    }
}

/// A multiplicative expression and the terms that follow it.
pub open spec fn addition(ts: Seq<LexemeView>, i: nat) -> Parsed
    decreases ahead(ts, i), 5nat,
{
    let first = multiplicative(ts, i);
    match first.result {
        Err(error) => failed(error, first.consumed),
        Ok(operand) => behind(first.consumed, terms(ts, i + first.consumed, operand)),
    }
}

/// A sum that was recognised in the first `sum.consumed` lexemes, taken as the
/// whole expression: nothing but the end of the stream may follow it.
///
/// An illegal byte behind the sum is reported as such. Any other token
/// behind it, a second operand or a closing parenthesis that nothing opened,
/// makes the expression invalid. The parse stays before what it refused.
pub open spec fn complete(ts: Seq<LexemeView>, sum: Parsed) -> Parsed {
    match sum.result {
        Err(_) => sum,
        Ok(_) => match peek(ts, sum.consumed) {
            Ok(TokenView::EOF) => sum,
            Ok(TokenView::Illegal(byte)) => failed(
                ParseErrorView::InvalidToken { token: TokenView::Illegal(byte), char: byte },
                sum.consumed,
            ),
            Ok(_) => failed(ParseErrorView::InvalidExpression, sum.consumed),
            Err(error) => failed(ParseErrorView::Lexical(error), sum.consumed),
        },
    }
}

/// The expression that the stream is.
///
/// A stream without a lexeme is an error of its own kind. Otherwise the
/// stream is one sum from its first lexeme to its last.
pub open spec fn expression(ts: Seq<LexemeView>) -> Parsed {
    match peek(ts, 0) {
        Ok(TokenView::EOF) => failed(ParseErrorView::Empty, 0),
        Ok(_) => complete(ts, addition(ts, 0)),
        Err(error) => failed(ParseErrorView::Lexical(error), 0),
    }
}

/// What holds of every parse: a tree that was recognised is well formed, an
/// error is neither that of an empty text nor the mismatch that only the
/// closing of a parenthesis looks for, and the parse ends inside the stream.
pub open spec fn sound(ts: Seq<LexemeView>, i: nat, parsed: Parsed) -> bool {
    &&& i + parsed.consumed <= ts.len()
    &&& match parsed.result {
        Ok(expr) => expr.well_formed(),
        Err(ParseErrorView::Empty) => false,
        Err(ParseErrorView::UnexpectedToken { .. }) => false,
        Err(_) => true,
    }
}

proof fn lemma_group_is_sound(ts: Seq<LexemeView>, i: nat)
    requires
        i <= ts.len(),
    ensures
        sound(ts, i, group(ts, i)),
    decreases ahead(ts, i), 6nat,
{
    lemma_addition_is_sound(ts, i);
}

proof fn lemma_primary_is_sound(ts: Seq<LexemeView>, i: nat)
    requires
        i <= ts.len(),
    ensures
        sound(ts, i, primary(ts, i)),
    decreases ahead(ts, i), 0nat,
{
    if peek(ts, i) == Ok::<TokenView, LexError>(TokenView::LeftParen) && step(ts, i).is_ok() {
        lemma_group_is_sound(ts, i + 1);
    }
}

proof fn lemma_unary_is_sound(ts: Seq<LexemeView>, i: nat)
    requires
        i <= ts.len(),
    ensures
        sound(ts, i, unary(ts, i)),
    decreases ahead(ts, i), 1nat,
{
    if peek(ts, i) == Ok::<TokenView, LexError>(TokenView::Minus) {
        if step(ts, i).is_ok() {
            lemma_primary_is_sound(ts, i + 1);
        }
    } else {
        lemma_primary_is_sound(ts, i);
    }
}

proof fn lemma_factors_are_sound(ts: Seq<LexemeView>, i: nat, operand: ExprView)
    requires
        i <= ts.len(),
        operand.well_formed(),
    ensures
        sound(ts, i, factors(ts, i, operand)),
    decreases ahead(ts, i), 2nat,
{
    match peek(ts, i) {
        Ok(TokenView::Star) | Ok(TokenView::Slash) => {
            if step(ts, i).is_ok() {
                lemma_unary_is_sound(ts, i + 1);
                let factor = unary(ts, i + 1);
                if let Ok(right) = factor.result {
                    lemma_factors_are_sound(
                        ts,
                        i + 1 + factor.consumed,
                        ExprView::Binary {
                            left: Box::new(operand),
                            op: peek(ts, i)->Ok_0,
                            right: Box::new(right),
                        },
                    );
                }
            }
        },
        Ok(TokenView::LeftParen) => {
            if step(ts, i).is_ok() {
                lemma_group_is_sound(ts, i + 1);
                let factor = group(ts, i + 1);
                if let Ok(right) = factor.result {
                    lemma_factors_are_sound(
                        ts,
                        i + 1 + factor.consumed,
                        ExprView::Binary {
                            left: Box::new(operand),
                            op: TokenView::Star,
                            right: Box::new(right),
                        },
                    );
                }
            }
        },
        _ => {},
    }
}

proof fn lemma_multiplicative_is_sound(ts: Seq<LexemeView>, i: nat)
    requires
        i <= ts.len(),
    ensures
        sound(ts, i, multiplicative(ts, i)),
    decreases ahead(ts, i), 3nat,
{
    lemma_unary_is_sound(ts, i);
    let first = unary(ts, i);
    if let Ok(operand) = first.result {
        lemma_factors_are_sound(ts, i + first.consumed, operand);
    }
}

proof fn lemma_terms_are_sound(ts: Seq<LexemeView>, i: nat, operand: ExprView)
    requires
        i <= ts.len(),
        operand.well_formed(),
    ensures
        sound(ts, i, terms(ts, i, operand)),
    decreases ahead(ts, i), 4nat,
{
    match peek(ts, i) {
        Ok(TokenView::Plus) | Ok(TokenView::Minus) => {
            if step(ts, i).is_ok() {
                lemma_multiplicative_is_sound(ts, i + 1);
                let term = multiplicative(ts, i + 1);
                if let Ok(right) = term.result {
                    lemma_terms_are_sound(
                        ts,
                        i + 1 + term.consumed,
                        ExprView::Binary {
                            left: Box::new(operand),
                            op: peek(ts, i)->Ok_0,
                            right: Box::new(right),
                        },
                    );
                }
            }
        },
        _ => {},
    }
}

proof fn lemma_addition_is_sound(ts: Seq<LexemeView>, i: nat)
    requires
        i <= ts.len(),
    ensures
        sound(ts, i, addition(ts, i)),
    decreases ahead(ts, i), 5nat,
{
    lemma_multiplicative_is_sound(ts, i);
    let first = multiplicative(ts, i);
    if let Ok(operand) = first.result {
        lemma_terms_are_sound(ts, i + first.consumed, operand);
    }
}

/// In every tree that the grammar recognises each operator stands where
/// arithmetic has a meaning for it, and no parse reads past the end of its
/// stream.
pub proof fn lemma_expression_is_well_formed(ts: Seq<LexemeView>)
    ensures
        expression(ts).consumed <= ts.len(),
        expression(ts).result matches Ok(expr) ==> expr.well_formed(),
{
    lemma_addition_is_sound(ts, 0);
}

/// A stream is recognised only as a whole: behind the tree stands the end of
/// the stream. Where the stream holds no end marker of its own, as the
/// lexemes of a text never do, every lexeme is used up.
pub proof fn lemma_expression_is_the_whole_stream(ts: Seq<LexemeView>)
    ensures
        expression(ts).result.is_ok() ==> peek(ts, expression(ts).consumed) == Ok::<
            TokenView,
            LexError,
        >(TokenView::EOF),
        expression(ts).result.is_ok() && (forall|k: int|
            0 <= k < ts.len() ==> #[trigger] ts[k] != Ok::<TokenView, LexError>(TokenView::EOF))
            ==> expression(ts).consumed == ts.len(),
{
    lemma_addition_is_sound(ts, 0);
}

/// A mismatch of kinds is never reported as such: the one place that looks
/// for a kind, the closing of a parenthesis, reports a missing parenthesis.
pub proof fn lemma_mismatch_is_never_reported(ts: Seq<LexemeView>)
    ensures
        !(expression(ts).result matches Err(ParseErrorView::UnexpectedToken { .. })),
{
    lemma_addition_is_sound(ts, 0);
}

/// The error of an empty text is kept for a stream without a single lexeme:
/// no other failure is reported as that one.
pub proof fn lemma_empty_means_no_lexeme(ts: Seq<LexemeView>)
    ensures
        expression(ts).result == Err::<ExprView, ParseErrorView>(ParseErrorView::Empty) <==> peek(
            ts,
            0,
        ) == Ok::<TokenView, LexError>(TokenView::EOF),
{
    lemma_addition_is_sound(ts, 0);
}

} // verus!
