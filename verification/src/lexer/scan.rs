//! The scanner as mathematics: what one scan of a text yields, and the
//! sequence of everything that repeated scans yield.

use crate::lexer::token::{
    is_digit, DecimalView, LexError, LexemeView, TokenView, DIGIT_ZERO, POINT,
};
use vstd::prelude::*;

verus! {

pub const SPACE: u8 = 32;

pub const TAB: u8 = 9;

pub const LINE_FEED: u8 = 10;

pub const FORM_FEED: u8 = 12;

pub const CARRIAGE_RETURN: u8 = 13;

pub const PLUS: u8 = 43;

pub const MINUS: u8 = 45;

pub const STAR: u8 = 42;

pub const SLASH: u8 = 47;

pub const LEFT_PAREN: u8 = 40;

pub const RIGHT_PAREN: u8 = 41;

/// Whether `b` is ASCII whitespace: a space, a tab, a line feed, a form feed
/// or a carriage return.
pub open spec fn is_space(b: u8) -> bool {
    b == SPACE || b == TAB || b == LINE_FEED || b == FORM_FEED || b == CARRIAGE_RETURN
}

/// How many whitespace bytes `s` starts with.
pub open spec fn leading_spaces(s: Seq<u8>) -> int
    decreases s.len(),
{
    if s.len() > 0 && is_space(s[0]) {
        1 + leading_spaces(s.drop_first())
    } else {
        0
    }
}

/// How many digits `s` starts with.
pub open spec fn leading_digits(s: Seq<u8>) -> int
    decreases s.len(),
{
    if s.len() > 0 && is_digit(s[0]) {
        1 + leading_digits(s.drop_first())
    } else {
        0
    }
}

/// The number that a run of decimal digits denotes.
pub open spec fn decimal_value(digits: Seq<u8>) -> nat
    decreases digits.len(),
{
    if digits.len() == 0 {
        0
    } else {
        (10 * decimal_value(digits.drop_last()) + (digits.last() - DIGIT_ZERO)) as nat
    }
}

/// What one scan yields, and how many bytes of the text it used up.
pub struct Scanned {
    pub lexeme: LexemeView,
    pub consumed: int,
}

/// The scan of a numeric literal. `s` starts with a digit.
///
/// The literal is the longest run of digits at the start of `s`. A point
/// directly behind that run belongs to the literal only if a digit follows the
/// point; the literal is then a float and extends over the digits behind the
/// point, and over no second point. Without such a point the literal is an
/// integer, which must fit a signed 64-bit integer.
pub open spec fn scan_number(s: Seq<u8>) -> Scanned {
    let whole = leading_digits(s);
    if whole + 1 < s.len() && s[whole] == POINT && is_digit(s[whole + 1]) {
        let fraction = leading_digits(s.skip(whole + 1));
        Scanned {
            lexeme: Ok(
                TokenView::Float(
                    DecimalView {
                        whole: s.subrange(0, whole as int),
                        fraction: s.subrange(whole + 1, whole + 1 + fraction),
                    },
                ),
            ),
            consumed: whole + 1 + fraction,
        }
    } else {
        let value = decimal_value(s.subrange(0, whole as int));
        Scanned {
            lexeme: if value <= i64::MAX {
                Ok(TokenView::Integer(value as i64))
            } else {
                Err(LexError::IntegerOverflow)
            },
            consumed: whole,
        }
    }
}

/// The token that `s` starts with once its leading whitespace is skipped, and
/// the number of bytes up to the end of that token.
///
/// A text of nothing but whitespace yields the end marker and is used up
/// entirely.
pub open spec fn scan(s: Seq<u8>) -> Scanned {
    let skipped = leading_spaces(s);
    if skipped >= s.len() {
        Scanned { lexeme: Ok(TokenView::EOF), consumed: s.len() as int }
    } else {
        let first = s[skipped];
        if is_digit(first) {
            let number = scan_number(s.skip(skipped));
            Scanned { lexeme: number.lexeme, consumed: skipped + number.consumed }
        } else {
            Scanned {
                lexeme: Ok(
                    if first == PLUS {
                        TokenView::Plus
                    } else if first == MINUS {
                        TokenView::Minus
                    } else if first == STAR {
                        TokenView::Star
                    } else if first == SLASH {
                        TokenView::Slash
                    } else if first == LEFT_PAREN {
                        TokenView::LeftParen
                    } else if first == RIGHT_PAREN {
                        TokenView::RightParen
                    } else {
                        TokenView::Illegal(first)
                    },
                ),
                consumed: skipped + 1,
            }
        }
    }
}

/// The text that is left after one scan of `s`.
pub open spec fn after_scan(s: Seq<u8>) -> Seq<u8> {
    s.skip(scan(s).consumed)
}

/// The text that is left after `n` scans of `s`.
pub open spec fn after_scans(s: Seq<u8>, n: nat) -> Seq<u8>
    decreases n,
{
    if n == 0 {
        s
    } else {
        after_scans(after_scan(s), (n - 1) as nat)
    }
}

/// Everything that repeated scans of `s` yield before the end marker.
pub open spec fn lexemes(s: Seq<u8>) -> Seq<LexemeView>
    decreases s.len(),
{
    let first = scan(s);
    if first.lexeme == Ok::<TokenView, LexError>(TokenView::EOF) {
        Seq::empty()
    } else {
        proof {
            lemma_scan_consumes(s);
        }
        seq![first.lexeme] + lexemes(after_scan(s))
    }
}

/// `leading_spaces(s)` is the length of the longest whitespace prefix of `s`.
pub proof fn lemma_leading_spaces(s: Seq<u8>)
    ensures
        0 <= leading_spaces(s) <= s.len(),
        forall|i: int| 0 <= i < leading_spaces(s) ==> is_space(#[trigger] s[i]),
        leading_spaces(s) < s.len() ==> !is_space(s[leading_spaces(s)]),
    decreases s.len(),
{
    if s.len() > 0 && is_space(s[0]) {
        let rest = s.drop_first();
        lemma_leading_spaces(rest);
        assert forall|i: int| 0 <= i < leading_spaces(s) implies is_space(#[trigger] s[i]) by {
            if i > 0 {
                assert(s[i] == rest[i - 1]);
            }
        }
        assert(leading_spaces(s) < s.len() ==> s[leading_spaces(s)] == rest[leading_spaces(rest)]);
    }
}

/// A prefix of `n` whitespace bytes that no whitespace byte follows is the
/// longest one.
pub proof fn lemma_leading_spaces_is(s: Seq<u8>, n: int)
    requires
        0 <= n <= s.len(),
        forall|i: int| 0 <= i < n ==> is_space(#[trigger] s[i]),
        n < s.len() ==> !is_space(s[n]),
    ensures
        leading_spaces(s) == n,
    decreases n,
{
    if n > 0 {
        let rest = s.drop_first();
        assert forall|i: int| 0 <= i < n - 1 implies is_space(#[trigger] rest[i]) by {
            assert(rest[i] == s[i + 1]);
        }
        lemma_leading_spaces_is(rest, n - 1);
    }
}

/// `leading_digits(s)` is the length of the longest digit prefix of `s`.
pub proof fn lemma_leading_digits(s: Seq<u8>)
    ensures
        0 <= leading_digits(s) <= s.len(),
        forall|i: int| 0 <= i < leading_digits(s) ==> is_digit(#[trigger] s[i]),
        leading_digits(s) < s.len() ==> !is_digit(s[leading_digits(s)]),
    decreases s.len(),
{
    if s.len() > 0 && is_digit(s[0]) {
        let rest = s.drop_first();
        lemma_leading_digits(rest);
        assert forall|i: int| 0 <= i < leading_digits(s) implies is_digit(#[trigger] s[i]) by {
            if i > 0 {
                assert(s[i] == rest[i - 1]);
            }
        }
        assert(leading_digits(s) < s.len() ==> s[leading_digits(s)] == rest[leading_digits(rest)]);
    }
}

/// A prefix of `n` digits that no digit follows is the longest one.
pub proof fn lemma_leading_digits_is(s: Seq<u8>, n: int)
    requires
        0 <= n <= s.len(),
        forall|i: int| 0 <= i < n ==> is_digit(#[trigger] s[i]),
        n < s.len() ==> !is_digit(s[n]),
    ensures
        leading_digits(s) == n,
    decreases n,
{
    if n > 0 {
        let rest = s.drop_first();
        assert forall|i: int| 0 <= i < n - 1 implies is_digit(#[trigger] rest[i]) by {
            assert(rest[i] == s[i + 1]);
        }
        lemma_leading_digits_is(rest, n - 1);
    }
}

/// A scan never reads past the end of the text, and every scan but that of
/// the end marker uses up at least one byte.
pub proof fn lemma_scan_consumes(s: Seq<u8>)
    ensures
        0 <= scan(s).consumed <= s.len(),
        scan(s).lexeme != Ok::<TokenView, LexError>(TokenView::EOF) ==> scan(s).consumed > 0,
        after_scan(s).len() == s.len() - scan(s).consumed,
{
    lemma_leading_spaces(s);
    let skipped = leading_spaces(s);
    if skipped < s.len() && is_digit(s[skipped]) {
        let t = s.skip(skipped);
        lemma_leading_digits(t);
        let whole = leading_digits(t);
        assert(whole > 0);
        if whole + 1 < t.len() && t[whole] == POINT && is_digit(t[whole + 1]) {
            lemma_leading_digits(t.skip(whole + 1));
        }
    }
}

/// Once a scan has yielded the end marker, every later scan yields it too:
/// nothing is left of the text.
pub proof fn lemma_end_is_final(s: Seq<u8>)
    requires
        scan(s).lexeme == Ok::<TokenView, LexError>(TokenView::EOF),
    ensures
        after_scan(s).len() == 0,
        scan(after_scan(s)).lexeme == Ok::<TokenView, LexError>(TokenView::EOF),
        lexemes(s).len() == 0,
        lexemes(after_scan(s)).len() == 0,
{
    lemma_leading_spaces(s);
    let skipped = leading_spaces(s);
    if skipped < s.len() && is_digit(s[skipped]) {
        lemma_leading_digits(s.skip(skipped));
    }
}

/// The end marker is no lexeme of a text: it stands behind the last of them.
pub proof fn lemma_lexemes_hold_no_end_marker(s: Seq<u8>)
    ensures
        forall|k: int|
            0 <= k < lexemes(s).len() ==> #[trigger] lexemes(s)[k] != Ok::<TokenView, LexError>(
                TokenView::EOF,
            ),
    decreases s.len(),
{
    if scan(s).lexeme != Ok::<TokenView, LexError>(TokenView::EOF) {
        lemma_scan_consumes(s);
        lemma_lexemes_hold_no_end_marker(after_scan(s));
        let rest = lexemes(after_scan(s));
        assert forall|k: int| 0 <= k < lexemes(s).len() implies #[trigger] lexemes(s)[k] != Ok::<
            TokenView,
            LexError,
        >(TokenView::EOF) by {
            if k > 0 {
                assert(lexemes(s)[k] == rest[k - 1]);
            }
        }
    }
}

/// Once a scan has yielded the end marker, every further scan yields it
/// again, however many there are.
pub proof fn lemma_end_marker_stays(s: Seq<u8>, n: nat)
    requires
        scan(s).lexeme == Ok::<TokenView, LexError>(TokenView::EOF),
    ensures
        scan(after_scans(s, n)).lexeme == Ok::<TokenView, LexError>(TokenView::EOF),
    decreases n,
{
    if n > 0 {
        lemma_end_is_final(s);
        lemma_end_marker_stays(after_scan(s), (n - 1) as nat);
    }
}

} // verus!
