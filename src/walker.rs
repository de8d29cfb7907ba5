use vstd::prelude::*;

use crate::token::{Location, Operator, Token, TokenV};

verus! {

/// An evaluation error: a binary node whose operator slot holds no operator.
#[derive(Debug, Clone, Copy, PartialEq, Eq, Structural)]
pub enum WalkError {
    Wtf(Location),
}

impl WalkError {
    pub fn loc(&self) -> (r: Location)
        ensures
            r == (match *self {
                WalkError::Wtf(l) => l,
            }),
    {
        match self {
            WalkError::Wtf(loc) => *loc,
        }
    }
}

/// The operator that a binary node applies, or the error for a node whose
/// operator slot holds some other token.
pub open spec fn operator_spec(op: TokenV) -> Result<Operator, WalkError> {
    match op {
        TokenV::Operator(o, _) => Ok(o),
        _ => Err(WalkError::Wtf(op.loc())),
    }
}

/// The evaluator's decisions that need no arithmetic: which operator a binary
/// node applies. The floating-point evaluation itself runs outside this library.
/// It keeps no state between statements.
pub struct Walker {}

impl Walker {
    pub fn new() -> (r: Self) {
        Self {}
    }

    /// Decides which operator a binary node applies; this is checked before
    /// either operand is evaluated.
    pub fn binary_operator(&self, op: &Token) -> (r: Result<Operator, WalkError>)
        ensures
            r == operator_spec(op@),
    {
        match op {
            Token::Operator(o, _) => Ok(*o),
            token => Err(WalkError::Wtf(*token.loc())),
        }
    }
}

} // verus!
