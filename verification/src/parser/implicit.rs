//! Implicit multiplication: a parenthesis that follows an operand multiplies,
//! just as if `*` had been written before it.

use crate::lexer::token::{LexError, LexemeView, TokenView};
use crate::parser::expr::ExprView;
use crate::parser::grammar::{
    addition, ahead, behind, expression, factors, failed, group, multiplicative, peek, primary,
    recognised, step, terms, unary, Parsed,
};
use vstd::prelude::*;

verus! {

/// Whether an operand can end with `lexeme`: with a literal or with a closing
/// parenthesis.
pub open spec fn ends_operand(lexeme: LexemeView) -> bool {
    match lexeme {
        Ok(TokenView::Integer(_)) => true,
        Ok(TokenView::Float(_)) => true,
        Ok(TokenView::RightParen) => true,
        _ => false,
    }
}

/// `longer` holds one lexeme more than `ts`: from place `k` on, every lexeme
/// of `ts` stands one place further back in `longer`.
#[verifier::opaque]
spec fn shifted(ts: Seq<LexemeView>, longer: Seq<LexemeView>, k: nat) -> bool {
    &&& longer.len() == ts.len() + 1
    &&& forall|m: int| k <= m < ts.len() ==> #[trigger] ts[m] == longer[m + 1]
}

/// `longer` is `ts` with a `*` put in at place `i`, before a parenthesis that
/// follows the end of an operand.
#[verifier::opaque]
spec fn starred(ts: Seq<LexemeView>, longer: Seq<LexemeView>, i: nat) -> bool {
    &&& 0 < i < ts.len()
    &&& ts[i as int] == Ok::<TokenView, LexError>(TokenView::LeftParen)
    &&& ends_operand(ts[i - 1])
    &&& shifted(ts, longer, i)
    &&& longer[i as int] == Ok::<TokenView, LexError>(TokenView::Star)
    &&& forall|m: int| 0 <= m < i ==> #[trigger] longer[m] == ts[m]
}

/// What a parse from `j` comes to once a lexeme is put in at `i`, if nothing
/// else changes: a parse that goes beyond `i` takes one lexeme more.
spec fn moved(parsed: Parsed, j: nat, i: nat) -> Parsed {
    if j + parsed.consumed > i {
        behind(1, parsed)
    } else {
        parsed
    }
}

/// Whether a parse from `j` that recognised a tree ended somewhere else than
/// at `i`.
spec fn passes(parsed: Parsed, j: nat, i: nat) -> bool {
    parsed.result.is_ok() ==> j + parsed.consumed != i
}

/// An operand and what follows it, each moved by itself, are moved as one.
proof fn lemma_joined(
    first: Parsed,
    first_starred: Parsed,
    rest: Parsed,
    rest_starred: Parsed,
    j: nat,
    i: nat,
)
    requires
        first.result.is_ok(),
        first_starred == moved(first, j, i),
        j + first.consumed != i,
        j + first.consumed < i ==> rest_starred == moved(rest, j + first.consumed, i),
        j + first.consumed > i ==> rest_starred == rest,
        rest.result.is_ok() ==> j + first.consumed + rest.consumed != i,
    ensures
        behind(first_starred.consumed, rest_starred) == moved(behind(first.consumed, rest), j, i),
        passes(behind(first.consumed, rest), j, i),
{
}

/// A parse that failed is moved with the place where it failed.
proof fn lemma_failed_moved(first: Parsed, first_starred: Parsed, before: nat, j: nat, i: nat)
    requires
        first.result.is_err(),
        first_starred == moved(first, j + before, i),
        j + before <= i,
    ensures
        failed(first.result->Err_0, before + first_starred.consumed) == moved(
            failed(first.result->Err_0, before + first.consumed),
            j,
            i,
        ),
        passes(failed(first.result->Err_0, before + first.consumed), j, i),
{
}

proof fn lemma_shifted_peek(ts: Seq<LexemeView>, longer: Seq<LexemeView>, k: nat, j: nat)
    requires
        shifted(ts, longer, k),
        j >= k,
    ensures
        peek(longer, j + 1) == peek(ts, j),
        step(longer, j + 1) == step(ts, j),
        ahead(longer, j + 1) == ahead(ts, j),
{
    reveal(shifted);
    if j < ts.len() {
        assert(ts[j as int] == longer[j as int + 1]);
        if j + 1 < ts.len() {
            assert(ts[j as int + 1] == longer[j as int + 2]);
        }
    }
}

proof fn lemma_shift_group(ts: Seq<LexemeView>, longer: Seq<LexemeView>, k: nat, j: nat)
    requires
        shifted(ts, longer, k),
        j >= k,
    ensures
        group(longer, j + 1) == group(ts, j),
    decreases ahead(ts, j), 6nat,
{
    lemma_shift_addition(ts, longer, k, j);
    lemma_shifted_peek(ts, longer, k, j + addition(ts, j).consumed);
}

proof fn lemma_shift_primary(ts: Seq<LexemeView>, longer: Seq<LexemeView>, k: nat, j: nat)
    requires
        shifted(ts, longer, k),
        j >= k,
    ensures
        primary(longer, j + 1) == primary(ts, j),
    decreases ahead(ts, j), 0nat,
{
    lemma_shifted_peek(ts, longer, k, j);
    if peek(ts, j) == Ok::<TokenView, LexError>(TokenView::LeftParen) && step(ts, j).is_ok() {
        lemma_shift_group(ts, longer, k, j + 1);
    }
}

proof fn lemma_shift_unary(ts: Seq<LexemeView>, longer: Seq<LexemeView>, k: nat, j: nat)
    requires
        shifted(ts, longer, k),
        j >= k,
    ensures
        unary(longer, j + 1) == unary(ts, j),
    decreases ahead(ts, j), 1nat,
{
    lemma_shifted_peek(ts, longer, k, j);
    if peek(ts, j) == Ok::<TokenView, LexError>(TokenView::Minus) {
        if step(ts, j).is_ok() {
            lemma_shift_primary(ts, longer, k, j + 1);
        }
    } else {
        lemma_shift_primary(ts, longer, k, j);
    }
}

proof fn lemma_shift_factors(
    ts: Seq<LexemeView>,
    longer: Seq<LexemeView>,
    k: nat,
    j: nat,
    operand: ExprView,
)
    requires
        shifted(ts, longer, k),
        j >= k,
    ensures
        factors(longer, j + 1, operand) == factors(ts, j, operand),
    decreases ahead(ts, j), 2nat,
{
    lemma_shifted_peek(ts, longer, k, j);
    match peek(ts, j) {
        Ok(TokenView::Star) | Ok(TokenView::Slash) => {
            if step(ts, j).is_ok() {
                lemma_shift_unary(ts, longer, k, j + 1);
                let factor = unary(ts, j + 1);
                if let Ok(right) = factor.result {
                    lemma_shift_factors(
                        ts,
                        longer,
                        k,
                        j + 1 + factor.consumed,
                        ExprView::Binary {
                            left: Box::new(operand),
                            op: peek(ts, j)->Ok_0,
                            right: Box::new(right),
                        },
                    );
                }
            }
        },
        Ok(TokenView::LeftParen) => {
            if step(ts, j).is_ok() {
                lemma_shift_group(ts, longer, k, j + 1);
                let factor = group(ts, j + 1);
                if let Ok(right) = factor.result {
                    lemma_shift_factors(
                        ts,
                        longer,
                        k,
                        j + 1 + factor.consumed,
                        ExprView::Binary {
                            left: Box::new(operand),
                            op: TokenView::Star,
                            right: Box::new(right),
                        },
                    );
                }
            }
        },
        _ => {},
    }
}

proof fn lemma_shift_multiplicative(ts: Seq<LexemeView>, longer: Seq<LexemeView>, k: nat, j: nat)
    requires
        shifted(ts, longer, k),
        j >= k,
    ensures
        multiplicative(longer, j + 1) == multiplicative(ts, j),
    decreases ahead(ts, j), 3nat,
{
    lemma_shift_unary(ts, longer, k, j);
    let first = unary(ts, j);
    if let Ok(operand) = first.result {
        lemma_shift_factors(ts, longer, k, j + first.consumed, operand);
    }
}

proof fn lemma_shift_terms(
    ts: Seq<LexemeView>,
    longer: Seq<LexemeView>,
    k: nat,
    j: nat,
    operand: ExprView,
)
    requires
        shifted(ts, longer, k),
        j >= k,
    ensures
        terms(longer, j + 1, operand) == terms(ts, j, operand),
    decreases ahead(ts, j), 4nat,
{
    lemma_shifted_peek(ts, longer, k, j);
    match peek(ts, j) {
        Ok(TokenView::Plus) | Ok(TokenView::Minus) => {
            if step(ts, j).is_ok() {
                lemma_shift_multiplicative(ts, longer, k, j + 1);
                let term = multiplicative(ts, j + 1);
                if let Ok(right) = term.result {
                    lemma_shift_terms(
                        ts,
                        longer,
                        k,
                        j + 1 + term.consumed,
                        ExprView::Binary {
                            left: Box::new(operand),
                            op: peek(ts, j)->Ok_0,
                            right: Box::new(right),
                        },
                    );
                }
            }
        },
        _ => {},
    }
}

proof fn lemma_shift_addition(ts: Seq<LexemeView>, longer: Seq<LexemeView>, k: nat, j: nat)
    requires
        shifted(ts, longer, k),
        j >= k,
    ensures
        addition(longer, j + 1) == addition(ts, j),
    decreases ahead(ts, j), 5nat,
{
    lemma_shift_multiplicative(ts, longer, k, j);
    let first = multiplicative(ts, j);
    if let Ok(operand) = first.result {
        lemma_shift_terms(ts, longer, k, j + first.consumed, operand);
    }
}

/// Where factors may follow, `*` before a parenthesis and the parenthesis
/// alone come to the same.
proof fn lemma_star_before_parenthesis(
    ts: Seq<LexemeView>,
    longer: Seq<LexemeView>,
    i: nat,
    operand: ExprView,
)
    requires
        starred(ts, longer, i),
    ensures
        factors(longer, i, operand) == behind(1, factors(ts, i, operand)),
        factors(ts, i, operand).consumed > 0,
{
    lemma_starred_place(ts, longer, i);
    lemma_shifted_peek(ts, longer, i, i);
    assert(peek(longer, i + 1) == Ok::<TokenView, LexError>(TokenView::LeftParen));
    assert(step(longer, i).is_ok());
    if step(ts, i).is_ok() {
        lemma_shift_group(ts, longer, i, i + 1);
        let factor = group(ts, i + 1);
        assert(primary(longer, i + 1) == behind(1, factor));
        assert(unary(longer, i + 1) == behind(1, factor));
        if let Ok(right) = factor.result {
            lemma_shift_factors(
                ts,
                longer,
                i,
                i + 1 + factor.consumed,
                ExprView::Binary {
                    left: Box::new(operand),
                    op: TokenView::Star,
                    right: Box::new(right),
                },
            );
        }
    }
}

/// What stands at `i` in both streams.
proof fn lemma_starred_place(ts: Seq<LexemeView>, longer: Seq<LexemeView>, i: nat)
    requires
        starred(ts, longer, i),
    ensures
        shifted(ts, longer, i),
        0 < i < ts.len(),
        peek(ts, i) == Ok::<TokenView, LexError>(TokenView::LeftParen),
        peek(longer, i) == Ok::<TokenView, LexError>(TokenView::Star),
{
    reveal(starred);
    reveal(shifted);
}

proof fn lemma_starred_peek(ts: Seq<LexemeView>, longer: Seq<LexemeView>, i: nat, j: nat)
    requires
        starred(ts, longer, i),
        j < i,
    ensures
        peek(longer, j) == peek(ts, j),
        step(longer, j) == step(ts, j),
        j + 1 == i ==> ends_operand(peek(ts, j)),
{
    reveal(starred);
    reveal(shifted);
    assert(longer[j as int] == ts[j as int]);
    if j + 1 < i {
        assert(longer[j as int + 1] == ts[j as int + 1]);
    }
}

/// How the lexeme at the end of a parse, at `end`, reads in both streams.
proof fn lemma_starred_end(ts: Seq<LexemeView>, longer: Seq<LexemeView>, i: nat, end: nat)
    requires
        starred(ts, longer, i),
        end != i,
    ensures
        end < i ==> peek(longer, end) == peek(ts, end) && step(longer, end) == step(ts, end),
        end > i ==> peek(longer, end + 1) == peek(ts, end) && step(longer, end + 1) == step(
            ts,
            end,
        ),
{
    if end < i {
        lemma_starred_peek(ts, longer, i, end);
    } else {
        lemma_starred_place(ts, longer, i);
        lemma_shifted_peek(ts, longer, i, end);
    }
}

#[verifier::rlimit(60)]
proof fn lemma_before_group(ts: Seq<LexemeView>, longer: Seq<LexemeView>, i: nat, j: nat)
    requires
        starred(ts, longer, i),
        j < i,
    ensures
        group(longer, j) == moved(group(ts, j), j, i),
    decreases ahead(ts, j), 6nat,
{
    lemma_before_addition(ts, longer, i, j);
    let inner = addition(ts, j);
    if inner.result.is_ok() {
        lemma_starred_end(ts, longer, i, j + inner.consumed);
    }
}

#[verifier::rlimit(60)]
proof fn lemma_before_primary(ts: Seq<LexemeView>, longer: Seq<LexemeView>, i: nat, j: nat)
    requires
        starred(ts, longer, i),
        j < i,
    ensures
        primary(longer, j) == moved(primary(ts, j), j, i),
    decreases ahead(ts, j), 0nat,
{
    lemma_starred_peek(ts, longer, i, j);
    if peek(ts, j) == Ok::<TokenView, LexError>(TokenView::LeftParen) && step(ts, j).is_ok() {
        lemma_before_group(ts, longer, i, j + 1);
    }
}

#[verifier::rlimit(60)]
proof fn lemma_before_unary(ts: Seq<LexemeView>, longer: Seq<LexemeView>, i: nat, j: nat)
    requires
        starred(ts, longer, i),
        j < i,
    ensures
        unary(longer, j) == moved(unary(ts, j), j, i),
    decreases ahead(ts, j), 1nat,
{
    lemma_starred_peek(ts, longer, i, j);
    if peek(ts, j) == Ok::<TokenView, LexError>(TokenView::Minus) {
        if step(ts, j).is_ok() {
            lemma_before_primary(ts, longer, i, j + 1);
        }
    } else {
        lemma_before_primary(ts, longer, i, j);
    }
}

/// The factors behind an operand that ended at `m`, in both streams.
#[verifier::rlimit(60)]
proof fn lemma_before_more_factors(
    ts: Seq<LexemeView>,
    longer: Seq<LexemeView>,
    i: nat,
    m: nat,
    operand: ExprView,
)
    requires
        starred(ts, longer, i),
    ensures
        m <= i ==> factors(longer, m, operand) == moved(factors(ts, m, operand), m, i),
        m > i ==> factors(longer, m + 1, operand) == factors(ts, m, operand),
        passes(factors(ts, m, operand), m, i),
    decreases ahead(ts, m), 2nat,
{
    lemma_starred_place(ts, longer, i);
    if m > i {
        lemma_shift_factors(ts, longer, i, m, operand);
    } else if m == i {
        lemma_star_before_parenthesis(ts, longer, i, operand);
    } else {
        lemma_starred_peek(ts, longer, i, m);
        let multiplies = peek(ts, m) == Ok::<TokenView, LexError>(TokenView::Star) || peek(ts, m)
            == Ok::<TokenView, LexError>(TokenView::Slash);
        let opens = peek(ts, m) == Ok::<TokenView, LexError>(TokenView::LeftParen);
        if !multiplies && !opens {
            assert(factors(ts, m, operand) == recognised(operand, 0));
            assert(factors(longer, m, operand) == recognised(operand, 0));
        } else if step(ts, m) is Err {
            assert(factors(ts, m, operand) == failed(step(ts, m)->Err_0, 1));
            assert(factors(longer, m, operand) == failed(step(ts, m)->Err_0, 1));
        } else {
            if multiplies {
                lemma_before_unary(ts, longer, i, m + 1);
            } else {
                lemma_before_group(ts, longer, i, m + 1);
            }
            let first = if multiplies {
                unary(ts, m + 1)
            } else {
                group(ts, m + 1)
            };
            let first_starred = if multiplies {
                unary(longer, m + 1)
            } else {
                group(longer, m + 1)
            };
            let op = if multiplies {
                peek(ts, m)->Ok_0
            } else {
                TokenView::Star
            };
            match first.result {
                Ok(right) => {
                    let product = ExprView::Binary {
                        left: Box::new(operand),
                        op,
                        right: Box::new(right),
                    };
                    lemma_before_more_factors(ts, longer, i, m + 1 + first.consumed, product);
                    let rest = factors(ts, m + 1 + first.consumed, product);
                    let rest_starred = factors(longer, m + 1 + first_starred.consumed, product);
                    assert(factors(ts, m, operand) == behind(1 + first.consumed, rest));
                    assert(factors(longer, m, operand) == behind(
                        1 + first_starred.consumed,
                        rest_starred,
                    ));
                    if m + 1 + first.consumed != i {
                        lemma_joined(first, first_starred, rest, rest_starred, m + 1, i);
                    }
                },
                Err(error) => {
                    assert(factors(ts, m, operand) == failed(error, 1 + first.consumed));
                    assert(factors(longer, m, operand) == failed(
                        error,
                        1 + first_starred.consumed,
                    ));
                },
            }
        }
    }
}

#[verifier::rlimit(60)]
proof fn lemma_before_multiplicative(ts: Seq<LexemeView>, longer: Seq<LexemeView>, i: nat, j: nat)
    requires
        starred(ts, longer, i),
        j < i,
    ensures
        multiplicative(longer, j) == moved(multiplicative(ts, j), j, i),
        passes(multiplicative(ts, j), j, i),
    decreases ahead(ts, j), 3nat,
{
    lemma_before_unary(ts, longer, i, j);
    let first = unary(ts, j);
    let first_starred = unary(longer, j);
    match first.result {
        Ok(operand) => {
            lemma_before_more_factors(ts, longer, i, j + first.consumed, operand);
            let rest = factors(ts, j + first.consumed, operand);
            let rest_starred = factors(longer, j + first_starred.consumed, operand);
            assert(multiplicative(ts, j) == behind(first.consumed, rest));
            assert(multiplicative(longer, j) == behind(first_starred.consumed, rest_starred));
            if j + first.consumed != i {
                lemma_joined(first, first_starred, rest, rest_starred, j, i);
            }
        },
        Err(error) => {
            assert(multiplicative(ts, j) == failed(error, first.consumed));
            assert(multiplicative(longer, j) == failed(error, first_starred.consumed));
            lemma_failed_moved(first, first_starred, 0, j, i);
        },
    }
}

/// One more term at `m`, before `i`: what the rest of the sum comes to in both
/// streams decides what the sum comes to.
proof fn lemma_before_one_term(
    ts: Seq<LexemeView>,
    longer: Seq<LexemeView>,
    i: nat,
    m: nat,
    operand: ExprView,
)
    requires
        starred(ts, longer, i),
        m < i,
        peek(ts, m) == Ok::<TokenView, LexError>(TokenView::Plus) || peek(ts, m) == Ok::<
            TokenView,
            LexError,
        >(TokenView::Minus),
        step(ts, m).is_ok(),
        multiplicative(ts, m + 1).result.is_ok(),
        multiplicative(longer, m + 1) == moved(multiplicative(ts, m + 1), m + 1, i),
        passes(multiplicative(ts, m + 1), m + 1, i),
    ensures
        ({
            let first = multiplicative(ts, m + 1);
            let first_starred = multiplicative(longer, m + 1);
            let sum = ExprView::Binary {
                left: Box::new(operand),
                op: peek(ts, m)->Ok_0,
                right: Box::new(first.result->Ok_0),
            };
            &&& terms(ts, m, operand) == behind(
                1 + first.consumed,
                terms(ts, m + 1 + first.consumed, sum),
            )
            &&& terms(longer, m, operand) == behind(
                1 + first_starred.consumed,
                terms(longer, m + 1 + first_starred.consumed, sum),
            )
        }),
{
    lemma_starred_peek(ts, longer, i, m);
}

/// The terms behind an operand that ended at `m`, which is not `i`, in both
/// streams.
#[verifier::rlimit(60)]
proof fn lemma_before_more_terms(
    ts: Seq<LexemeView>,
    longer: Seq<LexemeView>,
    i: nat,
    m: nat,
    operand: ExprView,
)
    requires
        starred(ts, longer, i),
        m != i,
    ensures
        m < i ==> terms(longer, m, operand) == moved(terms(ts, m, operand), m, i),
        m > i ==> terms(longer, m + 1, operand) == terms(ts, m, operand),
        passes(terms(ts, m, operand), m, i),
    decreases ahead(ts, m), 4nat,
{
    lemma_starred_place(ts, longer, i);
    if m > i {
        lemma_shift_terms(ts, longer, i, m, operand);
    } else {
        lemma_starred_peek(ts, longer, i, m);
        let adds = peek(ts, m) == Ok::<TokenView, LexError>(TokenView::Plus) || peek(ts, m) == Ok::<
            TokenView,
            LexError,
        >(TokenView::Minus);
        if !adds {
            assert(terms(ts, m, operand) == recognised(operand, 0));
            assert(terms(longer, m, operand) == recognised(operand, 0));
        } else if step(ts, m) is Err {
            assert(terms(ts, m, operand) == failed(step(ts, m)->Err_0, 1));
            assert(terms(longer, m, operand) == failed(step(ts, m)->Err_0, 1));
        } else {
            lemma_before_multiplicative(ts, longer, i, m + 1);
            let first = multiplicative(ts, m + 1);
            let first_starred = multiplicative(longer, m + 1);
            match first.result {
                Ok(right) => {
                    let sum = ExprView::Binary {
                        left: Box::new(operand),
                        op: peek(ts, m)->Ok_0,
                        right: Box::new(right),
                    };
                    lemma_before_more_terms(ts, longer, i, m + 1 + first.consumed, sum);
                    lemma_before_one_term(ts, longer, i, m, operand);
                    lemma_joined(
                        first,
                        first_starred,
                        terms(ts, m + 1 + first.consumed, sum),
                        terms(longer, m + 1 + first_starred.consumed, sum),
                        m + 1,
                        i,
                    );
                },
                Err(error) => {
                    assert(terms(ts, m, operand) == failed(error, 1 + first.consumed));
                    assert(terms(longer, m, operand) == failed(error, 1 + first_starred.consumed));
                },
            }
        }
    }
}

#[verifier::rlimit(60)]
proof fn lemma_before_addition(ts: Seq<LexemeView>, longer: Seq<LexemeView>, i: nat, j: nat)
    requires
        starred(ts, longer, i),
        j < i,
    ensures
        addition(longer, j) == moved(addition(ts, j), j, i),
        passes(addition(ts, j), j, i),
    decreases ahead(ts, j), 5nat,
{
    lemma_before_multiplicative(ts, longer, i, j);
    let first = multiplicative(ts, j);
    let first_starred = multiplicative(longer, j);
    match first.result {
        Ok(operand) => {
            lemma_before_more_terms(ts, longer, i, j + first.consumed, operand);
            let rest = terms(ts, j + first.consumed, operand);
            let rest_starred = terms(longer, j + first_starred.consumed, operand);
            assert(addition(ts, j) == behind(first.consumed, rest));
            assert(addition(longer, j) == behind(first_starred.consumed, rest_starred));
            lemma_joined(first, first_starred, rest, rest_starred, j, i);
        },
        Err(error) => {
            assert(addition(ts, j) == failed(error, first.consumed));
            assert(addition(longer, j) == failed(error, first_starred.consumed));
            lemma_failed_moved(first, first_starred, 0, j, i);
        },
    }
}

/// A parenthesis that follows the end of an operand multiplies: with `*`
/// written before it the stream is the same expression, or fails with the
/// same error.
pub proof fn lemma_parenthesis_behind_operand_multiplies(ts: Seq<LexemeView>, i: nat)
    requires
        0 < i < ts.len(),
        ts[i as int] == Ok::<TokenView, LexError>(TokenView::LeftParen),
        ends_operand(ts[i - 1]),
    ensures
        expression(ts.insert(i as int, Ok(TokenView::Star))).result == expression(ts).result,
{
    let longer = ts.insert(i as int, Ok(TokenView::Star));
    ts.insert_ensures(i as int, Ok(TokenView::Star));
    assert(starred(ts, longer, i)) by {
        reveal(starred);
        reveal(shifted);
    }
    lemma_starred_peek(ts, longer, i, 0);
    lemma_before_addition(ts, longer, i, 0);
    let sum = addition(ts, 0);
    if sum.result.is_ok() {
        lemma_starred_end(ts, longer, i, sum.consumed);
    }
}

} // verus!
