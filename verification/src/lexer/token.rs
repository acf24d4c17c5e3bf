use vstd::prelude::*;
use vstd::slice::slice_to_vec;

verus! {

/// The byte `0`, the first ASCII digit.
pub const DIGIT_ZERO: u8 = 48;

/// The byte `9`, the last ASCII digit.
pub const DIGIT_NINE: u8 = 57;

/// The byte `.`, which separates the two parts of a float literal.
pub const POINT: u8 = 46;

/// Whether `b` is one of the ASCII digits `0` to `9`.
pub open spec fn is_digit(b: u8) -> bool {
    DIGIT_ZERO <= b <= DIGIT_NINE
}

/// Whether every byte of `s` is an ASCII digit.
pub open spec fn all_digits(s: Seq<u8>) -> bool {
    forall|i: int| 0 <= i < s.len() ==> is_digit(#[trigger] s[i])
}

/// The digits of a float literal as they were written: the digits before the
/// point and the digits after it.
pub struct DecimalView {
    pub whole: Seq<u8>,
    pub fraction: Seq<u8>,
}

impl DecimalView {
    /// A literal has at least one digit on each side of the point, and
    /// nothing but digits.
    pub open spec fn valid(self) -> bool {
        &&& self.whole.len() > 0
        &&& self.fraction.len() > 0
        &&& all_digits(self.whole)
        &&& all_digits(self.fraction)
    }

    /// The literal as text: the whole digits, a point, the fraction digits.
    pub open spec fn text(self) -> Seq<u8> {
        self.whole + seq![POINT] + self.fraction
    }
}

/// A float literal, kept digit for digit so that no precision is lost before
/// the caller converts it to a binary floating-point number.
#[derive(Debug, PartialEq, Eq)]
pub struct Decimal {
    whole: Vec<u8>,
    fraction: Vec<u8>,
}

impl View for Decimal {
    type V = DecimalView;

    closed spec fn view(&self) -> DecimalView {
        DecimalView { whole: self.whole@, fraction: self.fraction@ }
    }
}

/// Whether every byte of `bytes` is an ASCII digit.
fn only_digits(bytes: &[u8]) -> (r: bool)
    ensures
        r == all_digits(bytes@),
{
    let mut i: usize = 0;
    while i < bytes.len()
        invariant
            i <= bytes.len(),
            forall|j: int| 0 <= j < i ==> is_digit(#[trigger] bytes@[j]),
        decreases bytes.len() - i,
    {
        let b = bytes[i];
        if b < DIGIT_ZERO || b > DIGIT_NINE {
            return false;
        }
        i += 1;
    }
    true
}

impl Decimal {
    #[verifier::type_invariant]
    spec fn well_formed(self) -> bool {
        self@.valid()
    }

    /// Builds a literal from runs of digits that are known to be valid.
    pub(crate) fn from_digits(whole: &[u8], fraction: &[u8]) -> (r: Decimal)
        requires
            (DecimalView { whole: whole@, fraction: fraction@ }).valid(),
        ensures
            r@ == (DecimalView { whole: whole@, fraction: fraction@ }),
    {
        Decimal { whole: slice_to_vec(whole), fraction: slice_to_vec(fraction) }
    }

    /// Builds a literal from the digits before and after the point. Returns
    /// `None` unless both parts are non-empty runs of ASCII digits.
    pub fn new(whole: &[u8], fraction: &[u8]) -> (r: Option<Decimal>)
        ensures
            match r {
                Some(d) => d@ == (DecimalView { whole: whole@, fraction: fraction@ }) && d@.valid(),
                None => !(DecimalView { whole: whole@, fraction: fraction@ }).valid(),
            },
    {
        if whole.len() == 0 || fraction.len() == 0 {
            return None;
        }
        if !only_digits(whole) || !only_digits(fraction) {
            return None;
        }
        Some(Decimal::from_digits(whole, fraction))
    }

    /// The digits before the point.
    pub fn whole(&self) -> (r: &[u8])
        ensures
            r@ == self@.whole,
            self@.valid(),
    {
        proof {
            use_type_invariant(self);
        }
        self.whole.as_slice()
    }

    /// The digits after the point.
    pub fn fraction(&self) -> (r: &[u8])
        ensures
            r@ == self@.fraction,
            self@.valid(),
    {
        proof {
            use_type_invariant(self);
        }
        self.fraction.as_slice()
    }
}

impl Clone for Decimal {
    fn clone(&self) -> (r: Self)
        ensures
            r@ == self@,
    {
        proof {
            use_type_invariant(self);
        }
        Decimal { whole: self.whole.clone(), fraction: self.fraction.clone() }
    }
}

/// One lexical unit of an arithmetic expression.
#[derive(Debug, PartialEq, Eq)]
pub enum Token {
    /// An integer literal.
    Integer(i64),
    /// A float literal.
    Float(Decimal),
    Plus,
    Minus,
    Star,
    Slash,
    LeftParen,
    RightParen,
    /// The end of the input.
    EOF,
    /// A byte that starts no token.
    Illegal(u8),
}

/// The mathematical value of a [`Token`].
pub enum TokenView {
    Integer(i64),
    Float(DecimalView),
    Plus,
    Minus,
    Star,
    Slash,
    LeftParen,
    RightParen,
    EOF,
    Illegal(u8),
}

impl View for Token {
    type V = TokenView;

    open spec fn view(&self) -> TokenView {
        match self {
            Token::Integer(value) => TokenView::Integer(*value),
            Token::Float(literal) => TokenView::Float(literal@),
            Token::Plus => TokenView::Plus,
            Token::Minus => TokenView::Minus,
            Token::Star => TokenView::Star,
            Token::Slash => TokenView::Slash,
            Token::LeftParen => TokenView::LeftParen,
            Token::RightParen => TokenView::RightParen,
            Token::EOF => TokenView::EOF,
            Token::Illegal(byte) => TokenView::Illegal(*byte),
        }
    }
}

impl TokenView {
    /// Whether two tokens are of the same kind, whatever they carry.
    pub open spec fn same_kind(self, other: TokenView) -> bool {
        match (self, other) {
            (TokenView::Integer(_), TokenView::Integer(_)) => true,
            (TokenView::Float(_), TokenView::Float(_)) => true,
            (TokenView::Plus, TokenView::Plus) => true,
            (TokenView::Minus, TokenView::Minus) => true,
            (TokenView::Star, TokenView::Star) => true,
            (TokenView::Slash, TokenView::Slash) => true,
            (TokenView::LeftParen, TokenView::LeftParen) => true,
            (TokenView::RightParen, TokenView::RightParen) => true,
            (TokenView::EOF, TokenView::EOF) => true,
            (TokenView::Illegal(_), TokenView::Illegal(_)) => true,
            _ => false,
        }
    }
}

impl Token {
    /// Whether `self` and `other` are of the same kind, whatever they carry.
    pub fn same_kind(&self, other: &Token) -> (r: bool)
        ensures
            r == self@.same_kind(other@),
    {
        match (self, other) {
            (Token::Integer(_), Token::Integer(_)) => true,
            (Token::Float(_), Token::Float(_)) => true,
            (Token::Plus, Token::Plus) => true,
            (Token::Minus, Token::Minus) => true,
            (Token::Star, Token::Star) => true,
            (Token::Slash, Token::Slash) => true,
            (Token::LeftParen, Token::LeftParen) => true,
            (Token::RightParen, Token::RightParen) => true,
            (Token::EOF, Token::EOF) => true,
            (Token::Illegal(_), Token::Illegal(_)) => true,
            _ => false,
        }
    }
}

impl Clone for Token {
    fn clone(&self) -> (r: Self)
        ensures
            r@ == self@,
    {
        match self {
            Token::Integer(value) => Token::Integer(*value),
            Token::Float(literal) => Token::Float(literal.clone()),
            Token::Plus => Token::Plus,
            Token::Minus => Token::Minus,
            Token::Star => Token::Star,
            Token::Slash => Token::Slash,
            Token::LeftParen => Token::LeftParen,
            Token::RightParen => Token::RightParen,
            Token::EOF => Token::EOF,
            Token::Illegal(byte) => Token::Illegal(*byte),
        }
    }
}

/// Why the scanner could not turn a piece of text into a token.
#[derive(Clone, Copy, Debug, PartialEq, Eq)]
pub enum LexError {
    /// An integer literal is larger than a signed 64-bit integer can hold.
    IntegerOverflow,
}

/// What one scan yields: a token, or the reason why there is none.
pub type Lexeme = Result<Token, LexError>;

/// The mathematical value of a [`Lexeme`].
pub type LexemeView = Result<TokenView, LexError>;

/// The view of what one scan yielded.
pub open spec fn lexeme_view(lexeme: Lexeme) -> LexemeView {
    match lexeme {
        Ok(token) => Ok(token@),
        Err(error) => Err(error),
    }
}

} // verus!
