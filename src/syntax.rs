//! Abstract syntax of calculator commands and its mathematical view.

use vstd::prelude::*;

verus! {

/// Binary operators of the calculator language.
#[derive(Clone, Copy, Debug, PartialEq, Eq, Structural)]
pub enum BinOp {
    /// `+`
    Add,
    /// `-`
    Subtract,
    /// `*`
    Multiply,
    /// `/`
    Divide,
    /// `^`
    Power,
}

/// An expression tree. Numeric literals keep their source text.
#[derive(Debug, PartialEq)]
pub enum Expression {
    /// A numeric literal: digits with an optional fractional part.
    Num(String),
    /// A reference to a binding, resolved at evaluation time.
    Variable(String),
    /// A binary operation owning both operands.
    BinOp { op: BinOp, lhs: Box<Expression>, rhs: Box<Expression> },
}

/// One input line: an optional target variable and an expression.
#[derive(Debug, PartialEq)]
pub struct Command {
    /// The explicit target, when the line starts with `name =`.
    pub variable: Option<String>,
    /// The expression to evaluate.
    pub expression: Expression,
}

/// Mathematical model of an [`Expression`].
pub enum Expr {
    Num(Seq<char>),
    Var(Seq<char>),
    Bin(BinOp, Box<Expr>, Box<Expr>),
}

/// Mathematical model of a [`Command`].
pub struct Cmd {
    pub target: Option<Seq<char>>,
    pub expr: Expr,
}

/// The model of an expression tree, node by node.
pub open spec fn expr_view(e: &Expression) -> Expr
    decreases e,
{
    match e {
        Expression::Num(s) => Expr::Num(s@),
        Expression::Variable(s) => Expr::Var(s@),
        Expression::BinOp { op, lhs, rhs } => Expr::Bin(
            *op,
            Box::new(expr_view(lhs)),
            Box::new(expr_view(rhs)),
        ),
    }
}

impl View for Expression {
    type V = Expr;

    open spec fn view(&self) -> Expr {
        expr_view(self)
    }
}

impl View for Command {
    type V = Cmd;

    open spec fn view(&self) -> Cmd {
        Cmd {
            target: match self.variable {
                Some(s) => Some(s@),
                None => None,
            },
            expr: self.expression@,
        }
    }
}

} // verus!
