//! Tokens of the expression language and their mathematical model.
use vstd::prelude::*;

verus! {

/// A token of a parametric expression. Number literals keep their text;
/// the application turns them into `f64` values.
#[derive(Debug, PartialEq)]
pub enum Token {
    Num(String),
    T,
    Plus,
    Minus,
    Star,
    Slash,
    Caret,
    LParen,
    RParen,
    Ident(String),
}

/// The model of a token: its text as a sequence of characters.
pub enum TokenModel {
    Num(Seq<char>),
    T,
    Plus,
    Minus,
    Star,
    Slash,
    Caret,
    LParen,
    RParen,
    Ident(Seq<char>),
}

impl View for Token {
    type V = TokenModel;

    open spec fn view(&self) -> TokenModel {
        match self {
            Token::Num(s) => TokenModel::Num(s@),
            Token::T => TokenModel::T,
            Token::Plus => TokenModel::Plus,
            Token::Minus => TokenModel::Minus,
            Token::Star => TokenModel::Star,
            Token::Slash => TokenModel::Slash,
            Token::Caret => TokenModel::Caret,
            Token::LParen => TokenModel::LParen,
            Token::RParen => TokenModel::RParen,
            Token::Ident(s) => TokenModel::Ident(s@),
        }
    }
}

/// The models of a sequence of tokens.
pub open spec fn tokens_view(ts: Seq<Token>) -> Seq<TokenModel> {
    ts.map_values(|t: Token| t@)
}

impl Token {
    /// A copy of the token.
    pub fn duplicate(&self) -> (r: Token)
        ensures
            r@ == self@,
    {
        match self {
            Token::Num(s) => Token::Num(s.clone()),
            Token::T => Token::T,
            Token::Plus => Token::Plus,
            Token::Minus => Token::Minus,
            Token::Star => Token::Star,
            Token::Slash => Token::Slash,
            Token::Caret => Token::Caret,
            Token::LParen => Token::LParen,
            Token::RParen => Token::RParen,
            Token::Ident(s) => Token::Ident(s.clone()),
        }
    }
}

} // verus!
