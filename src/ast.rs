use vstd::prelude::*;

use crate::token::{Token, TokenV};

verus! {

/// An expression tree. Each node keeps the token it was built from, for diagnostics.
/// A literal's `value` is its lexeme, whose decimal value is the number meant.
#[derive(Debug)]
pub enum Expr<'src> {
    Literal { token: Token<'src>, value: &'src str },
    Grouping { paren: Token<'src>, expr: Box<Expr<'src>> },
    Unary { op: Token<'src>, right: Box<Expr<'src>> },
    Binary { left: Box<Expr<'src>>, op: Token<'src>, right: Box<Expr<'src>> },
}

#[derive(Debug)]
pub enum Stmt<'src> {
    Expr(Expr<'src>),
}

/// The mathematical model of an expression tree.
pub ghost enum ExprV {
    Literal { token: TokenV, value: Seq<char> },
    Grouping { paren: TokenV, expr: Box<ExprV> },
    Unary { op: TokenV, right: Box<ExprV> },
    Binary { left: Box<ExprV>, op: TokenV, right: Box<ExprV> },
}

pub ghost enum StmtV {
    Expr(ExprV),
}

impl<'src> Expr<'src> {
    pub open spec fn view(&self) -> ExprV
        decreases self,
    {
        match self {
            Expr::Literal { token, value } => ExprV::Literal { token: token@, value: value@ },
            Expr::Grouping { paren, expr } => ExprV::Grouping {
                paren: paren@,
                expr: Box::new((**expr).view()),
            },
            Expr::Unary { op, right } => ExprV::Unary { op: op@, right: Box::new((**right).view()) },
            Expr::Binary { left, op, right } => ExprV::Binary {
                left: Box::new((**left).view()),
                op: op@,
                right: Box::new((**right).view()),
            },
        }
    }
}

impl<'src> Stmt<'src> {
    pub open spec fn view(&self) -> StmtV {
        match self {
            Stmt::Expr(e) => StmtV::Expr(e.view()),
        }
    }
}

} // verus!
