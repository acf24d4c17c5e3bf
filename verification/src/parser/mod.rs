pub mod error;
pub mod expr;
pub mod grammar;
pub mod implicit;
pub mod order;

use crate::lexer::scan::lexemes;
use crate::lexer::token::{lexeme_view, LexError, Lexeme, LexemeView, Token, TokenView};
use crate::lexer::Lexer;
use crate::parser::error::{outcome_view, ParseError, ParseErrorView};
use crate::parser::expr::{Expr, ExprView};
use crate::parser::grammar::{
    addition, ahead, complete, expression, factors, lemma_expression_is_well_formed,
    multiplicative, next, peek, primary, step, terms, unary, Parsed,
};
use vstd::prelude::*;

verus! {

/// The lexemes that a parser has before it: its lookahead, and behind it
/// everything that scans of `text` will yield. A lookahead at the end marker
/// has nothing behind it.
pub open spec fn stream(lookahead: LexemeView, text: Seq<u8>) -> Seq<LexemeView> {
    if lookahead == Ok::<TokenView, LexError>(TokenView::EOF) {
        Seq::empty()
    } else {
        seq![lookahead] + lexemes(text)
    }
}

/// The view of whether a step of the parser succeeded.
pub open spec fn status_view(status: Result<(), ParseError>) -> Result<(), ParseErrorView> {
    match status {
        Ok(_) => Ok(()),
        Err(error) => Err(error@),
    }
}

/// A recursive-descent parser with one lexeme of lookahead.
pub struct Parser<'a> {
    lexer: Lexer<'a>,
    current_token: Lexeme,
}

impl<'a> Parser<'a> {
    #[verifier::type_invariant]
    spec fn settled(self) -> bool {
        lexeme_view(self.current_token) == Ok::<TokenView, LexError>(TokenView::EOF)
            ==> self.lexer.remaining().len() == 0
    }

    /// The lexemes that the parser has not moved past: the lookahead first.
    pub closed spec fn remaining(&self) -> Seq<LexemeView> {
        stream(lexeme_view(self.current_token), self.lexer.remaining())
    }

    /// Whether the parser stands at place `i` of the stream `ts`.
    spec fn at(&self, ts: Seq<LexemeView>, i: nat) -> bool {
        i <= ts.len() && self.remaining() == ts.skip(i as int)
    }

    /// The lookahead of a parser at place `i` is the lexeme at `i`.
    proof fn lemma_lookahead(&self, ts: Seq<LexemeView>, i: nat)
        requires
            self.at(ts, i),
        ensures
            peek(ts, i) == lexeme_view(self.current_token),
    {
        let lookahead = lexeme_view(self.current_token);
        let behind = lexemes(self.lexer.remaining());
        assert(self.remaining().len() == ts.len() - i);
        if i < ts.len() {
            assert(ts.skip(i as int)[0] == ts[i as int]);
            assert((seq![lookahead] + behind)[0] == lookahead);
        } else {
            assert((seq![lookahead] + behind).len() > 0);
        }
    }

    /// A parser over the text that `lexer` has not scanned yet. It scans the
    /// first lexeme at once.
    pub fn new(lexer: Lexer<'a>) -> (parser: Parser<'a>)
        ensures
            parser.remaining() == lexemes(lexer.remaining()),
    {
        let mut lexer = lexer;
        let first_token = lexer.next_token();
        Self { lexer, current_token: first_token }
    }

    /// Moves past the lookahead: scans the next lexeme into its place. At the
    /// end of the text the lookahead stays the end marker.
    fn advance(&mut self, Ghost(ts): Ghost<Seq<LexemeView>>, Ghost(i): Ghost<nat>) -> (r: Result<
        (),
        ParseError,
    >)
        requires
            old(self).at(ts, i),
        ensures
            final(self).at(ts, next(ts, i)),
            status_view(r) == step(ts, i),
    {
        proof {
            use_type_invariant(&*self);
            self.lemma_lookahead(ts, i);
            if i < ts.len() {
                assert(ts.skip(i as int).skip(1) =~= ts.skip(i + 1 as int));
                assert(self.remaining().skip(1) =~= lexemes(self.lexer.remaining()));
            }
        }
        let mut lexer = self.lexer;
        let scanned = lexer.next_token();
        *self = Parser { lexer, current_token: scanned };
        proof {
            self.lemma_lookahead(ts, next(ts, i));
        }
        match &self.current_token {
            Ok(_) => Ok(()),
            Err(error) => Err(ParseError::Lexical(*error)),
        }
    }

    /// Moves past the lookahead if it is of the kind of `expected`.
    fn consume(
        &mut self,
        expected: Token,
        Ghost(ts): Ghost<Seq<LexemeView>>,
        Ghost(i): Ghost<nat>,
    ) -> (r: Result<(), ParseError>)
        requires
            old(self).at(ts, i),
        ensures
            match peek(ts, i) {
                Ok(found) => if found.same_kind(expected@) {
                    final(self).at(ts, next(ts, i)) && status_view(r) == step(ts, i)
                } else {
                    final(self).at(ts, i) && status_view(r) == Err::<(), ParseErrorView>(
                        ParseErrorView::UnexpectedToken { expected: expected@, found },
                    )
                },
                Err(error) => final(self).at(ts, i) && status_view(r) == Err::<(), ParseErrorView>(
                    ParseErrorView::Lexical(error),
                ),
            },
    {
        proof {
            self.lemma_lookahead(ts, i);
        }
        match &self.current_token {
            Ok(found) => {
                if found.same_kind(&expected) {
                    self.advance(Ghost(ts), Ghost(i))
                } else {
                    Err(ParseError::UnexpectedToken { expected, found: found.clone() })
                }
            },
            Err(error) => Err(ParseError::Lexical(*error)),
        }
    }

    /// Parses a literal or an expression in parentheses.
    fn parse_primary(&mut self, Ghost(ts): Ghost<Seq<LexemeView>>, Ghost(i): Ghost<nat>) -> (r:
        Result<Box<Expr>, ParseError>)
        requires
            old(self).at(ts, i),
        ensures
            outcome_view(r) == primary(ts, i).result,
            final(self).at(ts, i + primary(ts, i).consumed),
        decreases ahead(ts, i), 0nat,
    {
        proof {
            self.lemma_lookahead(ts, i);
        }
        match &self.current_token {
            Ok(Token::Integer(value)) => {
                let value = *value;
                match self.advance(Ghost(ts), Ghost(i)) {
                    Ok(_) => Ok(Box::new(Expr::Int(value))),
                    Err(error) => Err(error),
                }
            },
            Ok(Token::Float(literal)) => {
                let literal = literal.clone();
                match self.advance(Ghost(ts), Ghost(i)) {
                    Ok(_) => Ok(Box::new(Expr::Float(literal))),
                    Err(error) => Err(error),
                }
            },
            Ok(Token::LeftParen) => {
                match self.advance(Ghost(ts), Ghost(i)) {
                    Ok(_) => {},
                    Err(error) => {
                        return Err(error);
                    },
                }
                let expr = match self.parse_addition(Ghost(ts), Ghost(i + 1)) {
                    Ok(expr) => expr,
                    Err(error) => {
                        return Err(error);
                    },
                };
                let ghost closing = i + 1 + addition(ts, i + 1).consumed;
                match self.consume(Token::RightParen, Ghost(ts), Ghost(closing)) {
                    Ok(_) => Ok(Box::new(Expr::Grouping(expr))),
                    Err(ParseError::UnexpectedToken { .. }) => Err(
                        ParseError::MissingClosingParenthesis,
                    ),
                    Err(error) => Err(error),
                }
            },
            Ok(Token::Illegal(byte)) => {
                let byte = *byte;
                Err(ParseError::InvalidToken { token: Token::Illegal(byte), char: byte })
            },
            Ok(_) => Err(ParseError::InvalidExpression),
            Err(error) => Err(ParseError::Lexical(*error)),
        }
    }

    /// Parses a primary, or a minus sign and the primary that it negates.
    fn parse_unary(&mut self, Ghost(ts): Ghost<Seq<LexemeView>>, Ghost(i): Ghost<nat>) -> (r:
        Result<Box<Expr>, ParseError>)
        requires
            old(self).at(ts, i),
        ensures
            outcome_view(r) == unary(ts, i).result,
            final(self).at(ts, i + unary(ts, i).consumed),
        decreases ahead(ts, i), 1nat,
    {
        proof {
            self.lemma_lookahead(ts, i);
        }
        if matches!(self.current_token, Ok(Token::Minus)) {
            match self.advance(Ghost(ts), Ghost(i)) {
                Ok(_) => {},
                Err(error) => {
                    return Err(error);
                },
            }
            let right = match self.parse_primary(Ghost(ts), Ghost(i + 1)) {
                Ok(right) => right,
                Err(error) => {
                    return Err(error);
                },
            };
            return Ok(Box::new(Expr::Unary { op: Token::Minus, right }));
        }
        self.parse_primary(Ghost(ts), Ghost(i))
    }

    /// Parses a unary expression and the factors behind it, from left to
    /// right. A parenthesis in the place of an operator multiplies.
    fn parse_multiplicative(
        &mut self,
        Ghost(ts): Ghost<Seq<LexemeView>>,
        Ghost(i): Ghost<nat>,
    ) -> (r: Result<Box<Expr>, ParseError>)
        requires
            old(self).at(ts, i),
        ensures
            outcome_view(r) == multiplicative(ts, i).result,
            final(self).at(ts, i + multiplicative(ts, i).consumed),
        decreases ahead(ts, i), 3nat,
    {
        let mut left = match self.parse_unary(Ghost(ts), Ghost(i)) {
            Ok(left) => left,
            Err(error) => {
                return Err(error);
            },
        };
        let ghost mut j = i + unary(ts, i).consumed;
        loop
            invariant
                self.at(ts, j),
                i <= j,
                multiplicative(ts, i).result == factors(ts, j, left@).result,
                i + multiplicative(ts, i).consumed == j + factors(ts, j, left@).consumed,
            ensures
                self.at(ts, j),
                multiplicative(ts, i).result == Ok::<_, ParseErrorView>(left@),
                i + multiplicative(ts, i).consumed == j,
            decreases ahead(ts, j),
        {
            proof {
                self.lemma_lookahead(ts, j);
            }
            let op = match &self.current_token {
                Ok(Token::LeftParen) => Token::Star,
                Ok(Token::Star) => {
                    match self.advance(Ghost(ts), Ghost(j)) {
                        Ok(_) => {},
                        Err(error) => {
                            return Err(error);
                        },
                    }
                    proof {
                        j = j + 1;
                    }
                    Token::Star
                },
                Ok(Token::Slash) => {
                    match self.advance(Ghost(ts), Ghost(j)) {
                        Ok(_) => {},
                        Err(error) => {
                            return Err(error);
                        },
                    }
                    proof {
                        j = j + 1;
                    }
                    Token::Slash
                },
                _ => {
                    break ;
                },
            };
            let right = match self.parse_unary(Ghost(ts), Ghost(j)) {
                Ok(right) => right,
                Err(error) => {
                    return Err(error);
                },
            };
            proof {
                j = j + unary(ts, j).consumed;
            }
            left = Box::new(Expr::Binary { left, op, right });
        }
        Ok(left)
    }

    /// Parses a multiplicative expression and the terms behind it, from left
    /// to right.
    fn parse_addition(&mut self, Ghost(ts): Ghost<Seq<LexemeView>>, Ghost(i): Ghost<nat>) -> (r:
        Result<Box<Expr>, ParseError>)
        requires
            old(self).at(ts, i),
        ensures
            outcome_view(r) == addition(ts, i).result,
            final(self).at(ts, i + addition(ts, i).consumed),
        decreases ahead(ts, i), 5nat,
    {
        let mut left = match self.parse_multiplicative(Ghost(ts), Ghost(i)) {
            Ok(left) => left,
            Err(error) => {
                return Err(error);
            },
        };
        let ghost mut j = i + multiplicative(ts, i).consumed;
        loop
            invariant
                self.at(ts, j),
                i <= j,
                addition(ts, i).result == terms(ts, j, left@).result,
                i + addition(ts, i).consumed == j + terms(ts, j, left@).consumed,
            ensures
                self.at(ts, j),
                addition(ts, i).result == Ok::<_, ParseErrorView>(left@),
                i + addition(ts, i).consumed == j,
            decreases ahead(ts, j),
        {
            proof {
                self.lemma_lookahead(ts, j);
            }
            let op = match &self.current_token {
                Ok(Token::Plus) => Token::Plus,
                Ok(Token::Minus) => Token::Minus,
                _ => {
                    break ;
                },
            };
            match self.advance(Ghost(ts), Ghost(j)) {
                Ok(_) => {},
                Err(error) => {
                    return Err(error);
                },
            }
            let right = match self.parse_multiplicative(Ghost(ts), Ghost(j + 1)) {
                Ok(right) => right,
                Err(error) => {
                    return Err(error);
                },
            };
            proof {
                j = j + 1 + multiplicative(ts, j + 1).consumed;
            }
            left = Box::new(Expr::Binary { left, op, right });
        }
        Ok(left)
    }

    /// Parses the lexemes before the parser as one expression.
    ///
    /// The expression has to reach to the end of the text: whatever follows
    /// it is an error, and no tree is returned. After an error the parser
    /// stands where the error was found. A failure of the scanner is reported
    /// as soon as the failed lexeme becomes the lookahead, and by every later
    /// call.
    pub fn parse(&mut self) -> (r: Result<Box<Expr>, ParseError>)
        ensures
            outcome_view(r) == expression(old(self).remaining()).result,
            expression(old(self).remaining()).consumed <= old(self).remaining().len(),
            final(self).remaining() == old(self).remaining().skip(
                expression(old(self).remaining()).consumed as int,
            ),
            outcome_view(r) is Ok ==> final(self).remaining().len() == 0,
            outcome_view(r) matches Ok(expr) ==> expr.well_formed(),
    {
        let ghost ts = self.remaining();
        proof {
            lemma_expression_is_well_formed(ts);
            assert(ts.skip(0) =~= ts);
            self.lemma_lookahead(ts, 0);
        }
        match &self.current_token {
            Ok(Token::EOF) => {
                return Err(ParseError::Empty);
            },
            Ok(_) => {},
            Err(error) => {
                return Err(ParseError::Lexical(*error));
            },
        }
        let expr = match self.parse_addition(Ghost(ts), Ghost(0)) {
            Ok(expr) => expr,
            Err(error) => {
                return Err(error);
            },
        };
        self.end_of_expression(expr, Ghost(ts), Ghost(addition(ts, 0)))
    }

    /// Takes `expr` for the whole expression if the lookahead is the end
    /// marker, and refuses it otherwise.
    fn end_of_expression(
        &self,
        expr: Box<Expr>,
        Ghost(ts): Ghost<Seq<LexemeView>>,
        Ghost(sum): Ghost<Parsed>,
    ) -> (r: Result<Box<Expr>, ParseError>)
        requires
            self.at(ts, sum.consumed),
            sum.result == Ok::<ExprView, ParseErrorView>(expr@),
        ensures
            outcome_view(r) == complete(ts, sum).result,
            complete(ts, sum).consumed == sum.consumed,
            outcome_view(r) is Ok ==> self.remaining().len() == 0,
    {
        proof {
            self.lemma_lookahead(ts, sum.consumed);
        }
        match &self.current_token {
            Ok(Token::EOF) => Ok(expr),
            Ok(Token::Illegal(byte)) => {
                let byte = *byte;
                Err(ParseError::InvalidToken { token: Token::Illegal(byte), char: byte })
            },
            Ok(_) => Err(ParseError::InvalidExpression),
            Err(error) => Err(ParseError::Lexical(*error)),
        }
    }
}

} // verus!
