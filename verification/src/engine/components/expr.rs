//! Expression trees of the parametric-curve language and the errors that
//! turning text into a tree can produce.
use vstd::prelude::*;
use crate::engine::components::token::{Token, TokenModel};

verus! {

/// The binary operators: `+ - * / ^`.
#[derive(Clone, Copy, Debug, PartialEq, Eq, Structural)]
pub enum BinaryOp {
    Add,
    Sub,
    Mul,
    Div,
    Pow,
}

/// An expression in the variable `t`.
#[derive(Debug, PartialEq)]
pub enum Expr {
    /// A number literal, kept as written.
    Num(String),
    /// The constant `pi`.
    Pi,
    /// The constant `e`.
    Euler,
    /// The curve parameter `t`.
    T,
    BinOp { op: BinaryOp, lhs: Box<Expr>, rhs: Box<Expr> },
    UnaryMinus(Box<Expr>),
    /// A call of a named one-argument function.
    Call { name: String, arg: Box<Expr> },
}

/// The model of an expression: the same tree with texts as character sequences.
pub enum ExprModel {
    Num(Seq<char>),
    Pi,
    Euler,
    T,
    BinOp { op: BinaryOp, lhs: Box<ExprModel>, rhs: Box<ExprModel> },
    UnaryMinus(Box<ExprModel>),
    Call { name: Seq<char>, arg: Box<ExprModel> },
}

impl Expr {
    pub open spec fn model(&self) -> ExprModel
        decreases self,
    {
        match self {
            Expr::Num(s) => ExprModel::Num(s@),
            Expr::Pi => ExprModel::Pi,
            Expr::Euler => ExprModel::Euler,
            Expr::T => ExprModel::T,
            Expr::BinOp { op, lhs, rhs } => ExprModel::BinOp {
                op: *op,
                lhs: Box::new(lhs.model()),
                rhs: Box::new(rhs.model()),
            },
            Expr::UnaryMinus(inner) => ExprModel::UnaryMinus(Box::new(inner.model())),
            Expr::Call { name, arg } => ExprModel::Call { name: name@, arg: Box::new(arg.model()) },
        }
    }
}

impl View for Expr {
    type V = ExprModel;

    open spec fn view(&self) -> ExprModel {
        self.model()
    }
}

/// Why a text is not an expression.
#[derive(Debug, PartialEq)]
pub enum ExprError {
    /// The text holds nothing but white space.
    Empty,
    /// A run of digits, points and exponents that is not a number.
    InvalidNumber(String),
    /// A character that starts no token.
    UnexpectedChar(char),
    /// A parenthesis was expected; `found` is what stood there instead.
    Expected { expected: Token, found: Option<Token> },
    /// A token that cannot start an operand.
    UnexpectedToken(Token),
    /// The tokens ended where an operand was expected.
    UnexpectedEnd,
    /// Tokens remain after a complete expression.
    TrailingToken(Token),
}

/// The model of an error.
pub enum ErrorModel {
    Empty,
    InvalidNumber(Seq<char>),
    UnexpectedChar(char),
    Expected { expected: TokenModel, found: Option<TokenModel> },
    UnexpectedToken(TokenModel),
    UnexpectedEnd,
    TrailingToken(TokenModel),
}

impl View for ExprError {
    type V = ErrorModel;

    open spec fn view(&self) -> ErrorModel {
        match self {
            ExprError::Empty => ErrorModel::Empty,
            ExprError::InvalidNumber(s) => ErrorModel::InvalidNumber(s@),
            ExprError::UnexpectedChar(c) => ErrorModel::UnexpectedChar(*c),
            ExprError::Expected { expected, found } => ErrorModel::Expected {
                expected: expected@,
                found: match found {
                    Some(t) => Some(t@),
                    None => None,
                },
            },
            ExprError::UnexpectedToken(t) => ErrorModel::UnexpectedToken(t@),
            ExprError::UnexpectedEnd => ErrorModel::UnexpectedEnd,
            ExprError::TrailingToken(t) => ErrorModel::TrailingToken(t@),
        }
    }
}

} // verus!
