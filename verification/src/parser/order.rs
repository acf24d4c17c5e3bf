//! Precedence and associativity, on expressions whose operands are literals.

use crate::lexer::token::{LexError, LexemeView, TokenView};
use crate::parser::error::ParseErrorView;
use crate::parser::expr::ExprView;
use crate::parser::grammar::{
    expression, factors, multiplicative, primary, terms, unary, Parsed,
};
use vstd::prelude::*;

verus! {

/// Whether `lexeme` is a numeric literal.
pub open spec fn is_literal(lexeme: LexemeView) -> bool {
    match lexeme {
        Ok(TokenView::Integer(_)) => true,
        Ok(TokenView::Float(_)) => true,
        _ => false,
    }
}

/// The leaf that a numeric literal stands for.
pub open spec fn leaf(lexeme: LexemeView) -> ExprView {
    match lexeme {
        Ok(TokenView::Float(digits)) => ExprView::Float(digits),
        Ok(TokenView::Integer(value)) => ExprView::Int(value),
        _ => ExprView::Int(0),
    }
}

/// Whether `op` is one of `+` and `-`.
pub open spec fn is_additive(op: TokenView) -> bool {
    op == TokenView::Plus || op == TokenView::Minus
}

/// Whether `op` is one of `*` and `/`.
pub open spec fn is_multiplicative(op: TokenView) -> bool {
    op == TokenView::Star || op == TokenView::Slash
}

/// The tree of `left op right`.
pub open spec fn binary(left: ExprView, op: TokenView, right: ExprView) -> ExprView {
    ExprView::Binary { left: Box::new(left), op, right: Box::new(right) }
}

/// A literal at place `i`, with a token behind it, is an operand by itself.
proof fn lemma_literal_operand(ts: Seq<LexemeView>, i: nat)
    requires
        i < ts.len(),
        is_literal(ts[i as int]),
        i + 1 < ts.len() ==> ts[i as int + 1].is_ok(),
    ensures
        primary(ts, i) == (Parsed { result: Ok(leaf(ts[i as int])), consumed: 1 }),
        unary(ts, i) == primary(ts, i),
{
}

/// A multiplicative operator binds tighter than an additive one behind which
/// it stands: `a + b * c` is `a + (b * c)`.
pub proof fn lemma_product_binds_tighter_on_the_right(
    a: LexemeView,
    plus: TokenView,
    b: LexemeView,
    times: TokenView,
    c: LexemeView,
)
    requires
        is_literal(a),
        is_literal(b),
        is_literal(c),
        is_additive(plus),
        is_multiplicative(times),
    ensures
        expression(seq![a, Ok(plus), b, Ok(times), c]).result == Ok::<ExprView, ParseErrorView>(
            binary(leaf(a), plus, binary(leaf(b), times, leaf(c))),
        ),
{
    let ts = seq![a, Ok::<TokenView, LexError>(plus), b, Ok::<TokenView, LexError>(times), c];
    reveal_with_fuel(terms, 3);
    reveal_with_fuel(factors, 3);
    lemma_literal_operand(ts, 0);
    lemma_literal_operand(ts, 2);
    lemma_literal_operand(ts, 4);
    assert(multiplicative(ts, 0) == (Parsed { result: Ok(leaf(a)), consumed: 1 }));
    assert(factors(ts, 5, binary(leaf(b), times, leaf(c))).consumed == 0);
    assert(multiplicative(ts, 2) == (Parsed {
        result: Ok(binary(leaf(b), times, leaf(c))),
        consumed: 3,
    }));
}

/// A multiplicative operator binds tighter than an additive one before which
/// it stands: `a * b + c` is `(a * b) + c`.
pub proof fn lemma_product_binds_tighter_on_the_left(
    a: LexemeView,
    times: TokenView,
    b: LexemeView,
    plus: TokenView,
    c: LexemeView,
)
    requires
        is_literal(a),
        is_literal(b),
        is_literal(c),
        is_additive(plus),
        is_multiplicative(times),
    ensures
        expression(seq![a, Ok(times), b, Ok(plus), c]).result == Ok::<ExprView, ParseErrorView>(
            binary(binary(leaf(a), times, leaf(b)), plus, leaf(c)),
        ),
{
    let ts = seq![a, Ok::<TokenView, LexError>(times), b, Ok::<TokenView, LexError>(plus), c];
    reveal_with_fuel(terms, 3);
    reveal_with_fuel(factors, 3);
    lemma_literal_operand(ts, 0);
    lemma_literal_operand(ts, 2);
    lemma_literal_operand(ts, 4);
    assert(factors(ts, 3, binary(leaf(a), times, leaf(b))).consumed == 0);
    assert(multiplicative(ts, 0) == (Parsed {
        result: Ok(binary(leaf(a), times, leaf(b))),
        consumed: 3,
    }));
    assert(multiplicative(ts, 4) == (Parsed { result: Ok(leaf(c)), consumed: 1 }));
}

/// Operators of one level associate to the left: `a - b - c` is
/// `(a - b) - c`, and `a / b / c` is `(a / b) / c`.
pub proof fn lemma_operators_associate_to_the_left(
    a: LexemeView,
    first: TokenView,
    b: LexemeView,
    second: TokenView,
    c: LexemeView,
)
    requires
        is_literal(a),
        is_literal(b),
        is_literal(c),
        is_additive(first) && is_additive(second) || is_multiplicative(first) && is_multiplicative(
            second,
        ),
    ensures
        expression(seq![a, Ok(first), b, Ok(second), c]).result == Ok::<ExprView, ParseErrorView>(
            binary(binary(leaf(a), first, leaf(b)), second, leaf(c)),
        ),
{
    let ts = seq![a, Ok::<TokenView, LexError>(first), b, Ok::<TokenView, LexError>(second), c];
    reveal_with_fuel(terms, 3);
    reveal_with_fuel(factors, 3);
    lemma_literal_operand(ts, 0);
    lemma_literal_operand(ts, 2);
    lemma_literal_operand(ts, 4);
    if is_additive(first) {
        assert(multiplicative(ts, 0) == (Parsed { result: Ok(leaf(a)), consumed: 1 }));
        assert(multiplicative(ts, 2) == (Parsed { result: Ok(leaf(b)), consumed: 1 }));
        assert(multiplicative(ts, 4) == (Parsed { result: Ok(leaf(c)), consumed: 1 }));
    } else {
        let product = binary(binary(leaf(a), first, leaf(b)), second, leaf(c));
        assert(factors(ts, 5, product).consumed == 0);
        assert(multiplicative(ts, 0) == (Parsed { result: Ok(product), consumed: 5 }));
    }
}

/// A minus sign before a literal negates it, and binds tighter than the
/// binary operator behind the literal: `-a op b` is `(-a) op b`.
pub proof fn lemma_negation_binds_tightest(a: LexemeView, op: TokenView, b: LexemeView)
    requires
        is_literal(a),
        is_literal(b),
        is_additive(op) || is_multiplicative(op),
    ensures
        expression(seq![Ok(TokenView::Minus), a]).result == Ok::<ExprView, ParseErrorView>(
            ExprView::Unary { op: TokenView::Minus, right: Box::new(leaf(a)) },
        ),
        expression(seq![Ok(TokenView::Minus), a, Ok(op), b]).result == Ok::<
            ExprView,
            ParseErrorView,
        >(
            binary(
                ExprView::Unary { op: TokenView::Minus, right: Box::new(leaf(a)) },
                op,
                leaf(b),
            ),
        ),
{
    let negated = ExprView::Unary { op: TokenView::Minus, right: Box::new(leaf(a)) };
    reveal_with_fuel(terms, 2);
    reveal_with_fuel(factors, 2);
    let short = seq![Ok::<TokenView, LexError>(TokenView::Minus), a];
    lemma_literal_operand(short, 1);
    assert(unary(short, 0) == (Parsed { result: Ok(negated), consumed: 2 }));
    assert(multiplicative(short, 0) == (Parsed { result: Ok(negated), consumed: 2 }));

    let ts = seq![Ok::<TokenView, LexError>(TokenView::Minus), a, Ok::<TokenView, LexError>(op), b];
    lemma_literal_operand(ts, 1);
    lemma_literal_operand(ts, 3);
    assert(unary(ts, 0) == (Parsed { result: Ok(negated), consumed: 2 }));
    if is_additive(op) {
        assert(multiplicative(ts, 0) == (Parsed { result: Ok(negated), consumed: 2 }));
        assert(multiplicative(ts, 3) == (Parsed { result: Ok(leaf(b)), consumed: 1 }));
    } else {
        assert(factors(ts, 4, binary(negated, op, leaf(b))).consumed == 0);
        assert(multiplicative(ts, 0) == (Parsed {
            result: Ok(binary(negated, op, leaf(b))),
            consumed: 4,
        }));
    }
}

/// Only one minus sign is taken before an operand: a second one starts no
/// operand.
pub proof fn lemma_second_minus_sign_is_refused(ts: Seq<LexemeView>)
    requires
        ts.len() >= 2,
        ts[0] == Ok::<TokenView, LexError>(TokenView::Minus),
        ts[1] == Ok::<TokenView, LexError>(TokenView::Minus),
    ensures
        expression(ts).result == Err::<ExprView, ParseErrorView>(ParseErrorView::InvalidExpression),
{
    assert(primary(ts, 1).result == Err::<ExprView, ParseErrorView>(
        ParseErrorView::InvalidExpression,
    ));
    assert(unary(ts, 0).result == Err::<ExprView, ParseErrorView>(
        ParseErrorView::InvalidExpression,
    ));
    assert(multiplicative(ts, 0).result == Err::<ExprView, ParseErrorView>(
        ParseErrorView::InvalidExpression,
    ));
}

} // verus!
