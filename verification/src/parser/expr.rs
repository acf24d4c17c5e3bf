use crate::lexer::token::{Decimal, DecimalView, Token, TokenView};
use vstd::prelude::*;

verus! {

/// An arithmetic expression as a tree. Every node owns its children.
#[derive(Debug, PartialEq, Eq)]
pub enum Expr {
    /// An integer literal.
    Int(i64),
    /// A float literal.
    Float(Decimal),
    /// An operator applied to one operand.
    Unary { op: Token, right: Box<Expr> },
    /// An operator applied to two operands.
    Binary { left: Box<Expr>, op: Token, right: Box<Expr> },
    /// An expression in parentheses.
    Grouping(Box<Expr>),
}

/// The mathematical value of an [`Expr`].
pub enum ExprView {
    Int(i64),
    Float(DecimalView),
    Unary { op: TokenView, right: Box<ExprView> },
    Binary { left: Box<ExprView>, op: TokenView, right: Box<ExprView> },
    Grouping(Box<ExprView>),
}

impl Expr {
    /// The tree that `self` stands for.
    pub open spec fn tree(&self) -> ExprView
        decreases self,
    {
        match self {
            Expr::Int(value) => ExprView::Int(*value),
            Expr::Float(literal) => ExprView::Float(literal@),
            Expr::Unary { op, right } => ExprView::Unary { op: op@, right: Box::new(right.tree()) },
            Expr::Binary { left, op, right } => ExprView::Binary {
                left: Box::new(left.tree()),
                op: op@,
                right: Box::new(right.tree()),
            },
            Expr::Grouping(inner) => ExprView::Grouping(Box::new(inner.tree())),
        }
    }
}

impl View for Expr {
    type V = ExprView;

    open spec fn view(&self) -> ExprView {
        self.tree()
    }
}

impl ExprView {
    /// Whether every operator of the tree stands where arithmetic has a
    /// meaning for it: negation over one operand, and addition, subtraction,
    /// multiplication or division over two.
    pub open spec fn well_formed(self) -> bool
        decreases self,
    {
        match self {
            ExprView::Int(_) => true,
            ExprView::Float(_) => true,
            ExprView::Unary { op, right } => op == TokenView::Minus && right.well_formed(),
            ExprView::Binary { left, op, right } => {
                &&& op == TokenView::Plus || op == TokenView::Minus || op == TokenView::Star || op
                    == TokenView::Slash
                &&& left.well_formed()
                &&& right.well_formed()
            },
            ExprView::Grouping(inner) => inner.well_formed(),
        }
    }
}

} // verus!
