//! Recursive-descent parsing of tokens into an expression tree.
//!
//! Grammar, loosest binding first:
//! `expr := term (('+' | '-') term)*`, `term := unary (('*' | '/') unary)*`,
//! `unary := '-' unary | power`, `power := atom ('^' unary)?`,
//! `atom := number | 't' | 'pi' | 'e' | name '(' expr ')' | '(' expr ')'`.
use vstd::prelude::*;
use crate::engine::components::expr::{BinaryOp, ErrorModel, Expr, ExprError, ExprModel};
use crate::engine::components::token::{Token, TokenModel, tokens_view};

verus! {

/// Whether token `p` exists and is `t`.
pub open spec fn tok_is(toks: Seq<TokenModel>, p: int, t: TokenModel) -> bool {
    0 <= p < toks.len() && toks[p] == t
}

/// The token at `p`, if there is one.
pub open spec fn found_at(toks: Seq<TokenModel>, p: int) -> Option<TokenModel> {
    if 0 <= p < toks.len() {
        Some(toks[p])
    } else {
        None
    }
}

pub open spec fn bin(op: BinaryOp, l: ExprModel, r: ExprModel) -> ExprModel {
    ExprModel::BinOp { op, lhs: Box::new(l), rhs: Box::new(r) }
}

/// An expression starting at token `p`: the tree and the position after it.
pub open spec fn parse_expr_at(toks: Seq<TokenModel>, p: int) -> Result<(ExprModel, int), ErrorModel>
    decreases toks.len() - p, 6int,
{
    parse_add_sub_at(toks, p)
}

/// A sum or difference of terms, grouped from the left.
pub open spec fn parse_add_sub_at(toks: Seq<TokenModel>, p: int) -> Result<
    (ExprModel, int),
    ErrorModel,
>
    decreases toks.len() - p, 5int,
{
    match parse_mul_div_at(toks, p) {
        Err(e) => Err(e),
        Ok((lhs, q)) => if p < q <= toks.len() {
            add_sub_rest(toks, lhs, q)
        } else {
            Err(ErrorModel::UnexpectedEnd)
        },
    }
}

/// The remaining `+ term` and `- term` parts after `lhs`, which ends at `p`.
pub open spec fn add_sub_rest(toks: Seq<TokenModel>, lhs: ExprModel, p: int) -> Result<
    (ExprModel, int),
    ErrorModel,
>
    decreases toks.len() - p, 5int,
{
    if tok_is(toks, p, TokenModel::Plus) || tok_is(toks, p, TokenModel::Minus) {
        let op = if tok_is(toks, p, TokenModel::Plus) {
            BinaryOp::Add
        } else {
            BinaryOp::Sub
        };
        match parse_mul_div_at(toks, p + 1) {
            Err(e) => Err(e),
            Ok((rhs, q)) => if p < q <= toks.len() {
                add_sub_rest(toks, bin(op, lhs, rhs), q)
            } else {
                Err(ErrorModel::UnexpectedEnd)
            },
        }
    } else {
        Ok((lhs, p))
    }
}

/// A product or quotient of unary operands, grouped from the left.
pub open spec fn parse_mul_div_at(toks: Seq<TokenModel>, p: int) -> Result<
    (ExprModel, int),
    ErrorModel,
>
    decreases toks.len() - p, 4int,
{
    match parse_unary_at(toks, p) {
        Err(e) => Err(e),
        Ok((lhs, q)) => if p < q <= toks.len() {
            mul_div_rest(toks, lhs, q)
        } else {
            Err(ErrorModel::UnexpectedEnd)
        },
    }
}

/// The remaining `* unary` and `/ unary` parts after `lhs`, which ends at `p`.
pub open spec fn mul_div_rest(toks: Seq<TokenModel>, lhs: ExprModel, p: int) -> Result<
    (ExprModel, int),
    ErrorModel,
>
    decreases toks.len() - p, 4int,
{
    if tok_is(toks, p, TokenModel::Star) || tok_is(toks, p, TokenModel::Slash) {
        let op = if tok_is(toks, p, TokenModel::Star) {
            BinaryOp::Mul
        } else {
            BinaryOp::Div
        };
        match parse_unary_at(toks, p + 1) {
            Err(e) => Err(e),
            Ok((rhs, q)) => if p < q <= toks.len() {
                mul_div_rest(toks, bin(op, lhs, rhs), q)
            } else {
                Err(ErrorModel::UnexpectedEnd)
            },
        }
    } else {
        Ok((lhs, p))
    }
}

/// Any number of leading minus signs, then a power.
pub open spec fn parse_unary_at(toks: Seq<TokenModel>, p: int) -> Result<
    (ExprModel, int),
    ErrorModel,
>
    decreases toks.len() - p, 3int,
{
    if tok_is(toks, p, TokenModel::Minus) {
        match parse_unary_at(toks, p + 1) {
            Err(e) => Err(e),
            Ok((inner, q)) => Ok((ExprModel::UnaryMinus(Box::new(inner)), q)),
        }
    } else {
        parse_pow_at(toks, p)
    }
}

/// An atom, raised to a unary operand if `^` follows (so `^` groups from
/// the right and binds tighter than a leading minus).
pub open spec fn parse_pow_at(toks: Seq<TokenModel>, p: int) -> Result<(ExprModel, int), ErrorModel>
    decreases toks.len() - p, 2int,
{
    match parse_atom_at(toks, p) {
        Err(e) => Err(e),
        Ok((base, q)) => if p < q <= toks.len() {
            if tok_is(toks, q, TokenModel::Caret) {
                match parse_unary_at(toks, q + 1) {
                    Err(e) => Err(e),
                    Ok((exp, r)) => Ok((bin(BinaryOp::Pow, base, exp), r)),
                }
            } else {
                Ok((base, q))
            }
        } else {
            Err(ErrorModel::UnexpectedEnd)
        },
    }
}

/// A number, `t`, `pi`, `e`, a call `name(expr)` or a parenthesised expression.
pub open spec fn parse_atom_at(toks: Seq<TokenModel>, p: int) -> Result<
    (ExprModel, int),
    ErrorModel,
>
    decreases toks.len() - p, 1int,
{
    if p < 0 || p >= toks.len() {
        Err(ErrorModel::UnexpectedEnd)
    } else {
        match toks[p] {
            TokenModel::Num(n) => Ok((ExprModel::Num(n), p + 1)),
            TokenModel::T => Ok((ExprModel::T, p + 1)),
            TokenModel::Ident(name) => if name == seq!['p', 'i'] {
                Ok((ExprModel::Pi, p + 1))
            } else if name == seq!['e'] {
                Ok((ExprModel::Euler, p + 1))
            } else if tok_is(toks, p + 1, TokenModel::LParen) {
                match parse_expr_at(toks, p + 2) {
                    Err(e) => Err(e),
                    Ok((arg, q)) => if tok_is(toks, q, TokenModel::RParen) {
                        Ok((ExprModel::Call { name, arg: Box::new(arg) }, q + 1))
                    } else {
                        Err(
                            ErrorModel::Expected {
                                expected: TokenModel::RParen,
                                found: found_at(toks, q),
                            },
                        )
                    },
                }
            } else {
                Err(
                    ErrorModel::Expected {
                        expected: TokenModel::LParen,
                        found: found_at(toks, p + 1),
                    },
                )
            },
            TokenModel::LParen => match parse_expr_at(toks, p + 1) {
                Err(e) => Err(e),
                Ok((inner, q)) => if tok_is(toks, q, TokenModel::RParen) {
                    Ok((inner, q + 1))
                } else {
                    Err(ErrorModel::Expected { expected: TokenModel::RParen, found: found_at(toks, q) })
                },
            },
            other => Err(ErrorModel::UnexpectedToken(other)),
        }
    }
}

/// The tree of a whole token sequence: an expression that uses every token.
pub open spec fn parse_tokens(toks: Seq<TokenModel>) -> Result<ExprModel, ErrorModel> {
    match parse_expr_at(toks, 0) {
        Err(e) => Err(e),
        Ok((e, q)) => if q < toks.len() {
            Err(ErrorModel::TrailingToken(toks[q]))
        } else {
            Ok(e)
        },
    }
}

/// Whether a parse result moved forward from `p` and stayed within the tokens.
pub open spec fn advances(r: Result<(ExprModel, int), ErrorModel>, p: int, len: int) -> bool {
    r matches Ok((e, q)) ==> p < q <= len
}

/// Whether a parse result stayed at or after `p` and within the tokens.
pub open spec fn stays_after(r: Result<(ExprModel, int), ErrorModel>, p: int, len: int) -> bool {
    r matches Ok((e, q)) ==> p <= q <= len
}

pub proof fn lemma_expr_progress(toks: Seq<TokenModel>, p: int)
    requires
        0 <= p,
    ensures
        advances(parse_expr_at(toks, p), p, toks.len() as int),
    decreases toks.len() - p, 6int,
{
    lemma_add_sub_progress(toks, p);
}

pub proof fn lemma_add_sub_progress(toks: Seq<TokenModel>, p: int)
    requires
        0 <= p,
    ensures
        advances(parse_add_sub_at(toks, p), p, toks.len() as int),
    decreases toks.len() - p, 5int,
{
    lemma_mul_div_progress(toks, p);
    if let Ok((lhs, q)) = parse_mul_div_at(toks, p) {
        if p < q <= toks.len() {
            lemma_add_sub_rest_progress(toks, lhs, q);
        }
    }
}

pub proof fn lemma_add_sub_rest_progress(toks: Seq<TokenModel>, lhs: ExprModel, p: int)
    requires
        0 <= p <= toks.len(),
    ensures
        stays_after(add_sub_rest(toks, lhs, p), p, toks.len() as int),
    decreases toks.len() - p, 5int,
{
    if tok_is(toks, p, TokenModel::Plus) || tok_is(toks, p, TokenModel::Minus) {
        let op = if tok_is(toks, p, TokenModel::Plus) {
            BinaryOp::Add
        } else {
            BinaryOp::Sub
        };
        if let Ok((rhs, q)) = parse_mul_div_at(toks, p + 1) {
            if p < q <= toks.len() {
                lemma_add_sub_rest_progress(toks, bin(op, lhs, rhs), q);
            }
        }
    }
}

pub proof fn lemma_mul_div_progress(toks: Seq<TokenModel>, p: int)
    requires
        0 <= p,
    ensures
        advances(parse_mul_div_at(toks, p), p, toks.len() as int),
    decreases toks.len() - p, 4int,
{
    lemma_unary_progress(toks, p);
    if let Ok((lhs, q)) = parse_unary_at(toks, p) {
        if p < q <= toks.len() {
            lemma_mul_div_rest_progress(toks, lhs, q);
        }
    }
}

pub proof fn lemma_mul_div_rest_progress(toks: Seq<TokenModel>, lhs: ExprModel, p: int)
    requires
        0 <= p <= toks.len(),
    ensures
        stays_after(mul_div_rest(toks, lhs, p), p, toks.len() as int),
    decreases toks.len() - p, 4int,
{
    if tok_is(toks, p, TokenModel::Star) || tok_is(toks, p, TokenModel::Slash) {
        let op = if tok_is(toks, p, TokenModel::Star) {
            BinaryOp::Mul
        } else {
            BinaryOp::Div
        };
        if let Ok((rhs, q)) = parse_unary_at(toks, p + 1) {
            if p < q <= toks.len() {
                lemma_mul_div_rest_progress(toks, bin(op, lhs, rhs), q);
            }
        }
    }
}

pub proof fn lemma_unary_progress(toks: Seq<TokenModel>, p: int)
    requires
        0 <= p,
    ensures
        advances(parse_unary_at(toks, p), p, toks.len() as int),
    decreases toks.len() - p, 3int,
{
    if tok_is(toks, p, TokenModel::Minus) {
        lemma_unary_progress(toks, p + 1);
    } else {
        lemma_pow_progress(toks, p);
    }
}

pub proof fn lemma_pow_progress(toks: Seq<TokenModel>, p: int)
    requires
        0 <= p,
    ensures
        advances(parse_pow_at(toks, p), p, toks.len() as int),
    decreases toks.len() - p, 2int,
{
    lemma_atom_progress(toks, p);
    if let Ok((base, q)) = parse_atom_at(toks, p) {
        if p < q <= toks.len() && tok_is(toks, q, TokenModel::Caret) {
            lemma_unary_progress(toks, q + 1);
        }
    }
}

pub proof fn lemma_atom_progress(toks: Seq<TokenModel>, p: int)
    requires
        0 <= p,
    ensures
        advances(parse_atom_at(toks, p), p, toks.len() as int),
    decreases toks.len() - p, 1int,
{
    if 0 <= p < toks.len() {
        match toks[p] {
            TokenModel::Ident(name) => {
                if name != seq!['p', 'i'] && name != seq!['e'] && tok_is(
                    toks,
                    p + 1,
                    TokenModel::LParen,
                ) {
                    lemma_expr_progress(toks, p + 2);
                }
            },
            TokenModel::LParen => {
                lemma_expr_progress(toks, p + 1);
            },
            _ => {},
        }
    }
}


/// What a parse step returned, as a tree and the position after it.
pub open spec fn parsed(r: Result<Expr, ExprError>, pos: usize) -> Result<(ExprModel, int), ErrorModel> {
    match r {
        Ok(e) => Ok((e@, pos as int)),
        Err(err) => Err(err@),
    }
}

/// Whether two tokens are the same.
pub fn same_token(a: &Token, b: &Token) -> (r: bool)
    ensures
        r == (a@ == b@),
{
    match (a, b) {
        (Token::Num(x), Token::Num(y)) => x.eq(y),
        (Token::Ident(x), Token::Ident(y)) => x.eq(y),
        (Token::T, Token::T) => true,
        (Token::Plus, Token::Plus) => true,
        (Token::Minus, Token::Minus) => true,
        (Token::Star, Token::Star) => true,
        (Token::Slash, Token::Slash) => true,
        (Token::Caret, Token::Caret) => true,
        (Token::LParen, Token::LParen) => true,
        (Token::RParen, Token::RParen) => true,
        _ => false,
    }
}

/// `Vec::len` of a token vector. Besides the length, the contract claims the
/// bound that `Vec` documents for every allocation: at most `isize::MAX`
/// bytes, and a token takes more than one byte.
#[verifier::external_body]
fn token_count(tokens: &Vec<Token>) -> (n: usize)
    ensures
        n == tokens.len(),
        n <= isize::MAX,
{
    tokens.len()
}

/// A cursor over a token sequence.
pub(crate) struct Parser {
    pub(crate) tokens: Vec<Token>,
    pub(crate) pos: usize,
}

impl Parser {
    /// The models of the tokens.
    pub(crate) open spec fn toks(&self) -> Seq<TokenModel> {
        tokens_view(self.tokens@)
    }

    /// The tokens fit in memory, so moving one past any of them cannot
    /// overflow the position.
    pub(crate) open spec fn wf(&self) -> bool {
        self.tokens.len() <= isize::MAX
    }

    pub(crate) fn new(tokens: Vec<Token>) -> (p: Parser)
        ensures
            p.tokens@ == tokens@,
            p.pos == 0,
            p.wf(),
    {
        token_count(&tokens);
        Parser { tokens, pos: 0 }
    }

    /// The next token, without moving.
    fn peek(&self) -> (r: Option<&Token>)
        ensures
            match r {
                Some(t) => self.pos < self.tokens.len() && t@ == self.toks()[self.pos as int],
                None => self.pos >= self.tokens.len(),
            },
    {
        if self.pos < self.tokens.len() {
            Some(&self.tokens[self.pos])
        } else {
            None
        }
    }

    /// The next token, if there is one; the position moves on by one in
    /// every case, also past the end of the tokens.
    fn next_tok(&mut self) -> (r: Option<Token>)
        requires
            old(self).pos < usize::MAX,
        ensures
            final(self).tokens@ == old(self).tokens@,
            final(self).pos == old(self).pos + 1,
            match r {
                Some(t) => old(self).pos < old(self).tokens.len() && t@ == old(self).toks()[old(
                    self,
                ).pos as int],
                None => old(self).pos >= old(self).tokens.len(),
            },
    {
        let tok = if self.pos < self.tokens.len() {
            Some(self.tokens[self.pos].duplicate())
        } else {
            None
        };
        self.pos = self.pos + 1;
        tok
    }

    /// Moves past the next token and fails unless it is `expected`.
    fn expect(&mut self, expected: &Token) -> (r: Result<(), ExprError>)
        requires
            old(self).pos < usize::MAX,
        ensures
            final(self).tokens@ == old(self).tokens@,
            final(self).pos == old(self).pos + 1,
            match r {
                Ok(()) => tok_is(old(self).toks(), old(self).pos as int, expected@),
                Err(e) => !tok_is(old(self).toks(), old(self).pos as int, expected@) && e@
                    == (ErrorModel::Expected {
                    expected: expected@,
                    found: found_at(old(self).toks(), old(self).pos as int),
                }),
            },
    {
        match self.next_tok() {
            Some(tok) => {
                if same_token(&tok, expected) {
                    Ok(())
                } else {
                    Err(ExprError::Expected { expected: expected.duplicate(), found: Some(tok) })
                }
            },
            None => Err(ExprError::Expected { expected: expected.duplicate(), found: None }),
        }
    }

    pub(crate) fn parse_expr(&mut self) -> (r: Result<Expr, ExprError>)
        requires
            old(self).wf(),
        ensures
            final(self).wf(),
            final(self).tokens@ == old(self).tokens@,
            parsed(r, final(self).pos) == parse_expr_at(old(self).toks(), old(self).pos as int),
        decreases old(self).tokens.len() - old(self).pos, 6int,
    {
        self.parse_add_sub()
    }

    fn parse_add_sub(&mut self) -> (r: Result<Expr, ExprError>)
        requires
            old(self).wf(),
        ensures
            final(self).wf(),
            final(self).tokens@ == old(self).tokens@,
            parsed(r, final(self).pos) == parse_add_sub_at(
                old(self).toks(),
                old(self).pos as int,
            ),
        decreases old(self).tokens.len() - old(self).pos, 5int,
    {
        let ghost toks = self.toks();
        let ghost start = self.pos as int;
        let ghost tokens0 = self.tokens@;
        let mut lhs = match self.parse_mul_div() {
            Ok(e) => e,
            Err(e) => return Err(e),
        };
        proof {
            lemma_mul_div_progress(toks, start);
        }
        loop
            invariant
                self.wf(),
                self.pos <= self.tokens.len(),
                self.tokens@ == tokens0,
                tokens0 == old(self).tokens@,
                start == old(self).pos,
                toks == tokens_view(tokens0),
                start < self.pos,
                add_sub_rest(toks, lhs@, self.pos as int) == parse_add_sub_at(toks, start),
            decreases self.tokens.len() - self.pos,
        {
            let ghost p = self.pos as int;
            let op = match self.peek() {
                Some(Token::Plus) => BinaryOp::Add,
                Some(Token::Minus) => BinaryOp::Sub,
                _ => {
                    return Ok(lhs);
                },
            };
            self.next_tok();
            let rhs = match self.parse_mul_div() {
                Ok(e) => e,
                Err(e) => return Err(e),
            };
            proof {
                lemma_mul_div_progress(toks, p + 1);
            }
            lhs = Expr::BinOp { op, lhs: Box::new(lhs), rhs: Box::new(rhs) };
        }
    }

    fn parse_mul_div(&mut self) -> (r: Result<Expr, ExprError>)
        requires
            old(self).wf(),
        ensures
            final(self).wf(),
            final(self).tokens@ == old(self).tokens@,
            parsed(r, final(self).pos) == parse_mul_div_at(
                old(self).toks(),
                old(self).pos as int,
            ),
        decreases old(self).tokens.len() - old(self).pos, 4int,
    {
        let ghost toks = self.toks();
        let ghost start = self.pos as int;
        let ghost tokens0 = self.tokens@;
        let mut lhs = match self.parse_unary() {
            Ok(e) => e,
            Err(e) => return Err(e),
        };
        proof {
            lemma_unary_progress(toks, start);
        }
        loop
            invariant
                self.wf(),
                self.pos <= self.tokens.len(),
                self.tokens@ == tokens0,
                tokens0 == old(self).tokens@,
                start == old(self).pos,
                toks == tokens_view(tokens0),
                start < self.pos,
                mul_div_rest(toks, lhs@, self.pos as int) == parse_mul_div_at(toks, start),
            decreases self.tokens.len() - self.pos,
        {
            let ghost p = self.pos as int;
            let op = match self.peek() {
                Some(Token::Star) => BinaryOp::Mul,
                Some(Token::Slash) => BinaryOp::Div,
                _ => {
                    return Ok(lhs);
                },
            };
            self.next_tok();
            let rhs = match self.parse_unary() {
                Ok(e) => e,
                Err(e) => return Err(e),
            };
            proof {
                lemma_unary_progress(toks, p + 1);
            }
            lhs = Expr::BinOp { op, lhs: Box::new(lhs), rhs: Box::new(rhs) };
        }
    }

    fn parse_unary(&mut self) -> (r: Result<Expr, ExprError>)
        requires
            old(self).wf(),
        ensures
            final(self).wf(),
            final(self).tokens@ == old(self).tokens@,
            parsed(r, final(self).pos) == parse_unary_at(old(self).toks(), old(self).pos as int),
        decreases old(self).tokens.len() - old(self).pos, 3int,
    {
        if let Some(Token::Minus) = self.peek() {
            self.next_tok();
            let inner = match self.parse_unary() {
                Ok(e) => e,
                Err(e) => return Err(e),
            };
            return Ok(Expr::UnaryMinus(Box::new(inner)));
        }
        self.parse_pow()
    }

    fn parse_pow(&mut self) -> (r: Result<Expr, ExprError>)
        requires
            old(self).wf(),
        ensures
            final(self).wf(),
            final(self).tokens@ == old(self).tokens@,
            parsed(r, final(self).pos) == parse_pow_at(old(self).toks(), old(self).pos as int),
        decreases old(self).tokens.len() - old(self).pos, 2int,
    {
        let ghost toks = self.toks();
        let ghost start = self.pos as int;
        let base = match self.parse_atom() {
            Ok(e) => e,
            Err(e) => return Err(e),
        };
        proof {
            lemma_atom_progress(toks, start);
        }
        if let Some(Token::Caret) = self.peek() {
            self.next_tok();
            let exp = match self.parse_unary() {
                Ok(e) => e,
                Err(e) => return Err(e),
            };
            return Ok(Expr::BinOp { op: BinaryOp::Pow, lhs: Box::new(base), rhs: Box::new(exp) });
        }
        Ok(base)
    }

    fn parse_atom(&mut self) -> (r: Result<Expr, ExprError>)
        requires
            old(self).wf(),
        ensures
            final(self).wf(),
            final(self).tokens@ == old(self).tokens@,
            parsed(r, final(self).pos) == parse_atom_at(old(self).toks(), old(self).pos as int),
        decreases old(self).tokens.len() - old(self).pos, 1int,
    {
        let ghost toks = self.toks();
        let ghost start = self.pos as int;
        if self.pos >= self.tokens.len() {
            return Err(ExprError::UnexpectedEnd);
        }
        match &self.tokens[self.pos] {
            Token::Num(n) => {
                let e = Expr::Num(n.clone());
                self.pos = self.pos + 1;
                Ok(e)
            },
            Token::T => {
                self.pos = self.pos + 1;
                Ok(Expr::T)
            },
            Token::Ident(name) => {
                let name = name.clone();
                self.pos = self.pos + 1;
                proof {
                    reveal_strlit("pi");
                    reveal_strlit("e");
                }
                if crate::engine::components::chars::str_equal(name.as_str(), "pi") {
                    assert("pi"@ =~= seq!['p', 'i']);
                    Ok(Expr::Pi)
                } else if crate::engine::components::chars::str_equal(name.as_str(), "e") {
                    assert("e"@ =~= seq!['e']);
                    Ok(Expr::Euler)
                } else {
                    assert("pi"@ =~= seq!['p', 'i']);
                    assert("e"@ =~= seq!['e']);
                    match self.expect(&Token::LParen) {
                        Ok(()) => {},
                        Err(e) => return Err(e),
                    }
                    let arg = match self.parse_expr() {
                        Ok(e) => e,
                        Err(e) => return Err(e),
                    };
                    proof {
                        lemma_expr_progress(toks, start + 2);
                    }
                    match self.expect(&Token::RParen) {
                        Ok(()) => {},
                        Err(e) => return Err(e),
                    }
                    Ok(Expr::Call { name, arg: Box::new(arg) })
                }
            },
            Token::LParen => {
                self.pos = self.pos + 1;
                let inner = match self.parse_expr() {
                    Ok(e) => e,
                    Err(e) => return Err(e),
                };
                proof {
                    lemma_expr_progress(toks, start + 1);
                }
                match self.expect(&Token::RParen) {
                    Ok(()) => {},
                    Err(e) => return Err(e),
                }
                Ok(inner)
            },
            other => Err(ExprError::UnexpectedToken(other.duplicate())),
        }
    }
}

} // verus!
