//! Tokens written back as text, and the law that scanning undoes it.

use crate::lexer::scan::{
    after_scan, decimal_value, is_space, leading_digits, leading_spaces, lemma_leading_digits,
    lemma_leading_digits_is, lemma_leading_spaces, lemma_scan_consumes, lexemes, scan, Scanned,
    LEFT_PAREN, MINUS, PLUS, RIGHT_PAREN, SLASH, SPACE, STAR,
};
use crate::lexer::token::{all_digits, is_digit, LexError, TokenView, DIGIT_ZERO, POINT};
use vstd::prelude::*;

verus! {

/// The decimal digits of `n`, without leading zeros.
pub open spec fn decimal_digits(n: nat) -> Seq<u8>
    decreases n,
{
    if n < 10 {
        seq![(DIGIT_ZERO + n) as u8]
    } else {
        decimal_digits(n / 10).push((DIGIT_ZERO + n % 10) as u8)
    }
}

/// The text of one token. The end marker has none.
pub open spec fn token_text(token: TokenView) -> Seq<u8> {
    match token {
        TokenView::Integer(value) => decimal_digits(value as nat),
        TokenView::Float(literal) => literal.text(),
        TokenView::Plus => seq![PLUS],
        TokenView::Minus => seq![MINUS],
        TokenView::Star => seq![STAR],
        TokenView::Slash => seq![SLASH],
        TokenView::LeftParen => seq![LEFT_PAREN],
        TokenView::RightParen => seq![RIGHT_PAREN],
        TokenView::EOF => Seq::empty(),
        TokenView::Illegal(byte) => seq![byte],
    }
}

/// Whether a scan can yield `token` from some text: every token but the end
/// marker, with an integer that is not negative, a float literal of digits on
/// both sides of its point, and an illegal byte that is neither whitespace nor
/// a digit nor one of the six operators and parentheses.
pub open spec fn scannable(token: TokenView) -> bool {
    match token {
        TokenView::Integer(value) => value >= 0,
        TokenView::Float(literal) => literal.valid(),
        TokenView::EOF => false,
        TokenView::Illegal(byte) => {
            &&& !is_space(byte)
            &&& !is_digit(byte)
            &&& byte != PLUS
            &&& byte != MINUS
            &&& byte != STAR
            &&& byte != SLASH
            &&& byte != LEFT_PAREN
            &&& byte != RIGHT_PAREN
        },
        _ => true,
    }
}

/// The texts of `tokens`, with one space between each two of them.
pub open spec fn render(tokens: Seq<TokenView>) -> Seq<u8>
    decreases tokens.len(),
{
    if tokens.len() == 0 {
        Seq::empty()
    } else if tokens.len() == 1 {
        token_text(tokens[0])
    } else {
        token_text(tokens[0]) + seq![SPACE] + render(tokens.drop_first())
    }
}

/// The decimal digits of a number are digits, at least one, and denote the
/// number.
pub proof fn lemma_decimal_digits(n: nat)
    ensures
        decimal_digits(n).len() > 0,
        all_digits(decimal_digits(n)),
        decimal_value(decimal_digits(n)) == n,
    decreases n,
{
    let digits = decimal_digits(n);
    if n < 10 {
        assert(digits.drop_last().len() == 0);
        assert(decimal_value(digits.drop_last()) == 0);
    } else {
        lemma_decimal_digits(n / 10);
        assert(digits.drop_last() == decimal_digits(n / 10));
    }
}

/// Whatever token a scan yields is scannable, unless it is the end marker.
pub proof fn lemma_scan_yields_scannable(s: Seq<u8>)
    ensures
        scan(s).lexeme matches Ok(token) ==> token == TokenView::EOF || scannable(token),
{
    lemma_leading_spaces(s);
    let skipped = leading_spaces(s);
    if skipped < s.len() && is_digit(s[skipped]) {
        let t = s.skip(skipped);
        lemma_leading_digits(t);
        let whole = leading_digits(t);
        assert(whole > 0);
        if whole + 1 < t.len() && t[whole] == POINT && is_digit(t[whole + 1]) {
            let behind = t.skip(whole + 1);
            lemma_leading_digits(behind);
            let fraction = leading_digits(behind);
            assert(fraction > 0);
            assert(all_digits(t.subrange(0, whole)));
            assert forall|i: int| 0 <= i < fraction implies is_digit(
                #[trigger] t.subrange(whole + 1, whole + 1 + fraction)[i],
            ) by {
                assert(t.subrange(whole + 1, whole + 1 + fraction)[i] == behind[i]);
            }
        }
    }
}

/// The text of a scannable token starts with a byte that is not whitespace.
proof fn lemma_text_starts_with_ink(token: TokenView)
    requires
        scannable(token),
    ensures
        token_text(token).len() > 0,
        !is_space(token_text(token)[0]),
{
    match token {
        TokenView::Integer(value) => {
            lemma_decimal_digits(value as nat);
            assert(is_digit(decimal_digits(value as nat)[0]));
        },
        TokenView::Float(literal) => {
            assert(literal.text()[0] == literal.whole[0]);
            assert(is_digit(literal.whole[0]));
        },
        _ => {},
    }
}

/// Scanning the text of a token yields the token and uses up its text and no
/// more, provided the text ends there or a space follows.
pub proof fn lemma_scan_token_text(token: TokenView, tail: Seq<u8>)
    requires
        scannable(token),
        tail.len() == 0 || tail[0] == SPACE,
    ensures
        scan(token_text(token) + tail) == (Scanned {
            lexeme: Ok(token),
            consumed: token_text(token).len() as int,
        }),
{
    let text = token_text(token);
    let s = text + tail;
    lemma_text_starts_with_ink(token);
    assert(s[0] == text[0]);
    assert(leading_spaces(s) == 0);
    assert(s.skip(0) == s);
    match token {
        TokenView::Integer(value) => {
            lemma_decimal_digits(value as nat);
            let whole = text.len() as int;
            assert forall|i: int| 0 <= i < whole implies is_digit(#[trigger] s[i]) by {
                assert(s[i] == text[i]);
            }
            if whole < s.len() {
                assert(s[whole] == tail[0]);
            }
            lemma_leading_digits_is(s, whole);
            assert(s.subrange(0, whole) == text);
            assert(is_digit(s[0]));
        },
        TokenView::Float(literal) => {
            let whole = literal.whole.len() as int;
            let fraction = literal.fraction.len() as int;
            assert forall|i: int| 0 <= i < whole implies is_digit(#[trigger] s[i]) by {
                assert(s[i] == literal.whole[i]);
            }
            assert(s[whole] == POINT);
            lemma_leading_digits_is(s, whole);
            assert(s[whole + 1] == literal.fraction[0]);
            let behind = s.skip(whole + 1);
            assert forall|i: int| 0 <= i < fraction implies is_digit(#[trigger] behind[i]) by {
                assert(behind[i] == literal.fraction[i]);
            }
            if fraction < behind.len() {
                assert(behind[fraction] == tail[0]);
            }
            lemma_leading_digits_is(behind, fraction);
            assert(s.subrange(0, whole) == literal.whole);
            assert(s.subrange(whole + 1, whole + 1 + fraction) == literal.fraction);
            assert(is_digit(s[0]));
        },
        _ => {},
    }
}

/// A space before a text changes nothing in what its scans yield.
pub proof fn lemma_space_is_skipped(s: Seq<u8>)
    ensures
        lexemes(seq![SPACE] + s) == lexemes(s),
{
    let spaced = seq![SPACE] + s;
    assert(spaced.drop_first() == s);
    assert(leading_spaces(spaced) == 1 + leading_spaces(s));
    let skipped = leading_spaces(s);
    lemma_leading_spaces(s);
    assert(spaced.skip(1 + skipped) == s.skip(skipped));
    if skipped < s.len() {
        assert(spaced[1 + skipped] == s[skipped]);
    }
    assert(scan(spaced).lexeme == scan(s).lexeme);
    assert(scan(spaced).consumed == 1 + scan(s).consumed);
    lemma_scan_consumes(s);
    assert(after_scan(spaced) == after_scan(s));
}

/// Tokens that are written out with single spaces between them and scanned
/// again come back as they were.
pub proof fn lemma_render_round_trip(tokens: Seq<TokenView>)
    requires
        forall|i: int| 0 <= i < tokens.len() ==> scannable(#[trigger] tokens[i]),
    ensures
        lexemes(render(tokens)) == tokens.map_values(
            |token: TokenView| Ok::<TokenView, LexError>(token),
        ),
    decreases tokens.len(),
{
    let expected = tokens.map_values(|token: TokenView| Ok::<TokenView, LexError>(token));
    if tokens.len() == 0 {
        assert(leading_spaces(render(tokens)) == 0);
        assert(lexemes(render(tokens)) == expected);
    } else {
        let first = tokens[0];
        let text = token_text(first);
        let others = tokens.drop_first();
        let tail = if tokens.len() == 1 {
            Seq::<u8>::empty()
        } else {
            seq![SPACE] + render(others)
        };
        assert(render(tokens) == text + tail);
        lemma_scan_token_text(first, tail);
        lemma_text_starts_with_ink(first);
        assert(after_scan(text + tail) == tail);
        lemma_render_round_trip(others);
        if tokens.len() == 1 {
            assert(render(others).len() == 0);
        } else {
            lemma_space_is_skipped(render(others));
        }
        assert(lexemes(tail) == lexemes(render(others)));
        assert(lexemes(render(tokens)) == seq![Ok::<TokenView, LexError>(first)] + lexemes(tail));
        assert(lexemes(render(tokens)) == expected);
    }
}

} // verus!
