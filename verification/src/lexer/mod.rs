pub mod render;
pub mod scan;
pub mod token;

use crate::lexer::scan::{
    after_scan, decimal_value, is_space, leading_digits, leading_spaces, lemma_end_is_final,
    lemma_leading_digits_is, lemma_leading_spaces, lemma_leading_spaces_is, lemma_scan_consumes,
    scan, scan_number, CARRIAGE_RETURN, FORM_FEED, LEFT_PAREN, LINE_FEED, MINUS, PLUS,
    RIGHT_PAREN, SLASH, SPACE, STAR, TAB,
};
use crate::lexer::token::{
    all_digits, is_digit, lexeme_view, Decimal, LexError, Lexeme, Token, TokenView, DIGIT_NINE,
    DIGIT_ZERO, POINT,
};
use vstd::prelude::*;
use vstd::slice::slice_subrange;
use vstd::string::StringSliceAdditionalSpecFns;

verus! {

/// Whether `b` is an ASCII digit.
fn is_digit_byte(b: u8) -> (r: bool)
    ensures
        r == is_digit(b),
{
    DIGIT_ZERO <= b && b <= DIGIT_NINE
}

/// Whether `b` is ASCII whitespace.
fn is_space_byte(b: u8) -> (r: bool)
    ensures
        r == is_space(b),
{
    b == SPACE || b == TAB || b == LINE_FEED || b == FORM_FEED || b == CARRIAGE_RETURN
}

/// The value of a run of digits keeps growing as digits are appended.
proof fn lemma_decimal_value_grows(digits: Seq<u8>, n: int)
    requires
        0 <= n <= digits.len(),
        all_digits(digits),
    ensures
        decimal_value(digits.subrange(0, n)) <= decimal_value(digits),
    decreases digits.len() - n,
{
    if n < digits.len() {
        let shorter = digits.drop_last();
        assert(shorter.subrange(0, n) == digits.subrange(0, n));
        lemma_decimal_value_grows(shorter, n);
        assert(is_digit(digits.last()));
    } else {
        assert(digits.subrange(0, n) == digits);
    }
}

/// The number that the digits denote, or `None` if it is larger than a signed
/// 64-bit integer can hold.
fn integer_value(digits: &[u8]) -> (r: Option<i64>)
    requires
        all_digits(digits@),
    ensures
        r == if decimal_value(digits@) <= i64::MAX {
            Some(decimal_value(digits@) as i64)
        } else {
            None
        },
{
    let mut value: i64 = 0;
    let mut i: usize = 0;
    while i < digits.len()
        invariant
            i <= digits.len(),
            all_digits(digits@),
            value == decimal_value(digits@.subrange(0, i as int)),
        decreases digits.len() - i,
    {
        let digit: i64 = (digits[i] - DIGIT_ZERO) as i64;
        proof {
            let longer = digits@.subrange(0, i + 1);
            assert(longer.drop_last() == digits@.subrange(0, i as int));
            assert(longer.last() == digits@[i as int]);
            assert(decimal_value(longer) == 10 * value + digit);
            lemma_decimal_value_grows(digits@, i + 1);
        }
        if value > (i64::MAX - digit) / 10 {
            return None;
        }
        value = 10 * value + digit;
        i += 1;
    }
    proof {
        assert(digits@.subrange(0, i as int) == digits@);
    }
    Some(value)
}

/// A scanner over one line of text: it hands out the tokens of the text one
/// by one.
#[derive(Clone, Copy)]
pub struct Lexer<'a> {
    source: &'a [u8],
    pos: usize,
}

impl<'a> Lexer<'a> {
    #[verifier::type_invariant]
    spec fn in_bounds(self) -> bool {
        self.pos <= self.source.len()
    }

    /// The part of the text that no scan has used up yet.
    pub closed spec fn remaining(&self) -> Seq<u8> {
        self.source@.skip(self.pos as int)
    }

    /// A scanner at the start of `input`.
    pub fn new(input: &'a str) -> (lexer: Self)
        ensures
            lexer.remaining() == input.spec_bytes(),
    {
        Self { source: input.as_bytes(), pos: 0 }
    }

    /// The byte at the scanner's position, if the text has not ended.
    fn current_byte(&self) -> (r: Option<u8>)
        ensures
            r == if self.pos < self.source.len() {
                Some(self.source@[self.pos as int])
            } else {
                None
            },
    {
        if self.is_at_end() {
            None
        } else {
            Some(self.source[self.pos])
        }
    }

    /// The byte `distance` places behind the scanner's position, if the text
    /// reaches that far.
    fn peek_byte(&self, distance: usize) -> (r: Option<u8>)
        requires
            self.pos + distance <= usize::MAX,
        ensures
            r == if self.pos + distance < self.source.len() {
                Some(self.source@[self.pos + distance])
            } else {
                None
            },
    {
        if self.pos + distance < self.source.len() {
            Some(self.source[self.pos + distance])
        } else {
            None
        }
    }

    /// Whether the scanner has reached the end of the text.
    fn is_at_end(&self) -> (r: bool)
        ensures
            r == (self.pos >= self.source.len()),
    {
        self.pos >= self.source.len()
    }

    /// Moves the scanner one byte on.
    fn advance(&mut self)
        requires
            old(self).pos < old(self).source.len(),
        ensures
            final(self).source == old(self).source,
            final(self).pos == old(self).pos + 1,
    {
        self.pos += 1;
    }

    /// Whether a digit follows the byte at the scanner's position.
    fn is_next_char_a_number(&self) -> (r: bool)
        requires
            self.pos < usize::MAX,
        ensures
            r == (self.pos + 1 < self.source.len() && is_digit(self.source@[self.pos + 1])),
    {
        if let Some(next_byte) = self.peek_byte(1) {
            return is_digit_byte(next_byte);
        }
        false
    }

    /// Reads the numeric literal at the scanner's position.
    fn read_number(&mut self) -> (r: Lexeme)
        requires
            old(self).pos < old(self).source.len(),
            is_digit(old(self).source@[old(self).pos as int]),
        ensures
            final(self).source == old(self).source,
            lexeme_view(r) == scan_number(old(self).remaining()).lexeme,
            final(self).pos == old(self).pos + scan_number(old(self).remaining()).consumed,
    {
        let start_pos = self.pos;
        let mut has_dot = false;
        let mut dot_pos: usize = 0;
        let ghost text = self.source@;
        loop
            invariant
                self.source@ == text,
                self.source == old(self).source,
                start_pos <= self.pos <= text.len(),
                start_pos < text.len(),
                is_digit(text[start_pos as int]),
                !has_dot ==> forall|i: int|
                    start_pos <= i < self.pos ==> is_digit(#[trigger] text[i]),
                has_dot ==> {
                    &&& start_pos < dot_pos
                    &&& dot_pos + 1 < text.len()
                    &&& dot_pos + 1 <= self.pos
                    &&& text[dot_pos as int] == POINT
                    &&& is_digit(text[dot_pos + 1])
                    &&& forall|i: int| start_pos <= i < dot_pos ==> is_digit(#[trigger] text[i])
                    &&& forall|i: int| dot_pos < i < self.pos ==> is_digit(#[trigger] text[i])
                },
            ensures
                self.pos < text.len() ==> !is_digit(text[self.pos as int]),
                !has_dot ==> !(self.pos + 1 < text.len() && text[self.pos as int] == POINT
                    && is_digit(text[self.pos + 1])),
            decreases text.len() - self.pos,
        {
            match self.current_byte() {
                Some(byte_char) => {
                    if is_digit_byte(byte_char) {
                        self.advance();
                    } else if byte_char == POINT && !has_dot {
                        if self.is_next_char_a_number() {
                            has_dot = true;
                            dot_pos = self.pos;
                            self.advance();
                            continue ;
                        }
                        break ;
                    } else {
                        break ;
                    }
                },
                None => {
                    break ;
                },
            }
        }

        let ghost rest = text.skip(start_pos as int);
        if has_dot {
            let whole = slice_subrange(self.source, start_pos, dot_pos);
            let fraction = slice_subrange(self.source, dot_pos + 1, self.pos);
            proof {
                let digits = dot_pos - start_pos;
                lemma_leading_digits_is(rest, digits);
                let behind = rest.skip(digits + 1);
                lemma_leading_digits_is(behind, self.pos - dot_pos - 1);
                assert(whole@ == rest.subrange(0, digits));
                assert(fraction@ == rest.subrange(digits + 1, digits + 1 + leading_digits(behind)));
            }
            Ok(Token::Float(Decimal::from_digits(whole, fraction)))
        } else {
            let digits = slice_subrange(self.source, start_pos, self.pos);
            proof {
                lemma_leading_digits_is(rest, self.pos - start_pos);
                assert(digits@ == rest.subrange(0, self.pos - start_pos));
            }
            match integer_value(digits) {
                Some(value) => Ok(Token::Integer(value)),
                None => Err(LexError::IntegerOverflow),
            }
        }
    }

    /// Moves the scanner past the whitespace at its position.
    fn skip_whitespace(&mut self)
        ensures
            final(self).source == old(self).source,
            final(self).pos == old(self).pos + leading_spaces(old(self).remaining()),
    {
        proof {
            use_type_invariant(&*self);
        }
        let ghost start = self.pos;
        let ghost text = self.source@;
        loop
            invariant
                self.source@ == text,
                self.source == old(self).source,
                start <= self.pos <= text.len(),
                forall|i: int| start <= i < self.pos ==> is_space(#[trigger] text[i]),
            ensures
                self.pos < text.len() ==> !is_space(text[self.pos as int]),
            decreases text.len() - self.pos,
        {
            match self.current_byte() {
                Some(b) => {
                    if is_space_byte(b) {
                        self.advance();
                    } else {
                        break ;
                    }
                },
                None => {
                    break ;
                },
            }
        }
        proof {
            lemma_leading_spaces_is(text.skip(start as int), self.pos - start);
        }
    }

    /// Scans the next token and moves behind it.
    ///
    /// Whitespace before the token is skipped. At the end of the text the
    /// result is the end marker, however often the function is called. An
    /// integer literal that does not fit a signed 64-bit integer is used up
    /// and reported as an error.
    pub fn next_token(&mut self) -> (r: Lexeme)
        ensures
            lexeme_view(r) == scan(old(self).remaining()).lexeme,
            final(self).remaining() == after_scan(old(self).remaining()),
            old(self).remaining().len() == 0 ==> r matches Ok(Token::EOF),
            r matches Ok(Token::EOF) ==> final(self).remaining().len() == 0,
    {
        proof {
            use_type_invariant(&*self);
        }
        let ghost text = self.remaining();
        proof {
            if scan(text).lexeme == Ok::<TokenView, LexError>(TokenView::EOF) {
                lemma_end_is_final(text);
            }
        }
        self.skip_whitespace();

        let byte_char = match self.current_byte() {
            Some(c) => c,
            None => {
                proof {
                    use_type_invariant(&*self);
                    lemma_leading_spaces(text);
                    assert(self.remaining() =~= text.skip(text.len() as int));
                }
                return Ok(Token::EOF);
            },
        };
        proof {
            lemma_leading_spaces(text);
            assert(self.remaining() =~= text.skip(leading_spaces(text)));
        }

        let lexeme = if byte_char == PLUS {
            self.advance();
            Ok(Token::Plus)
        } else if byte_char == MINUS {
            self.advance();
            Ok(Token::Minus)
        } else if byte_char == STAR {
            self.advance();
            Ok(Token::Star)
        } else if byte_char == SLASH {
            self.advance();
            Ok(Token::Slash)
        } else if byte_char == LEFT_PAREN {
            self.advance();
            Ok(Token::LeftParen)
        } else if byte_char == RIGHT_PAREN {
            self.advance();
            Ok(Token::RightParen)
        } else if is_digit_byte(byte_char) {
            self.read_number()
        } else {
            self.advance();
            Ok(Token::Illegal(byte_char))
        };
        proof {
            use_type_invariant(&*self);
            lemma_scan_consumes(text);
            assert(self.remaining() =~= after_scan(text));
        }
        lexeme
    }
}

} // verus!
