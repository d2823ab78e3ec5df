//! Laws on how operands combine: parsing depends only on the tokens from
//! where it starts, a complete operand parses the same with more tokens after
//! it, and from these, what `-` before an operand and `^` between an atom and
//! an operand build.
use vstd::prelude::*;
use crate::engine::components::expr::{BinaryOp, ErrorModel, ExprModel};
use crate::engine::components::parser::{
    add_sub_rest, bin, lemma_add_sub_rest_progress, lemma_atom_progress, lemma_expr_progress, lemma_mul_div_progress,
    lemma_mul_div_rest_progress, lemma_unary_progress, mul_div_rest, parse_add_sub_at,
    parse_atom_at, parse_expr_at, found_at, parse_mul_div_at, parse_pow_at, parse_tokens, parse_unary_at,
    tok_is,
};
use crate::engine::components::laws::op_token;
use crate::engine::components::grammar::{follows_expr, follows_term, follows_unary};
use crate::engine::components::token::TokenModel;

verus! {

/// A parse result with its end position moved on by `n`.
pub open spec fn shifted(r: Result<(ExprModel, int), ErrorModel>, n: int) -> Result<
    (ExprModel, int),
    ErrorModel,
> {
    match r {
        Ok((e, q)) => Ok((e, q + n)),
        Err(e) => Err(e),
    }
}

/// Tokens placed before the start of an expression change nothing but the
/// positions.
pub proof fn lemma_shift_expr(pre: Seq<TokenModel>, t: Seq<TokenModel>, p: int)
    requires
        0 <= p,
    ensures
        parse_expr_at(pre + t, pre.len() + p) == shifted(parse_expr_at(t, p), pre.len() as int),
    decreases t.len() - p, 6int,
{
    lemma_shift_add_sub(pre, t, p);
}

proof fn lemma_shift_add_sub(pre: Seq<TokenModel>, t: Seq<TokenModel>, p: int)
    requires
        0 <= p,
    ensures
        parse_add_sub_at(pre + t, pre.len() + p) == shifted(parse_add_sub_at(t, p), pre.len() as int),
    decreases t.len() - p, 5int,
{
    lemma_shift_mul_div(pre, t, p);
    if let Ok((lhs, q)) = parse_mul_div_at(t, p) {
        if p < q <= t.len() {
            lemma_shift_add_sub_rest(pre, t, lhs, q);
        }
    }
}

proof fn lemma_shift_add_sub_rest(pre: Seq<TokenModel>, t: Seq<TokenModel>, lhs: ExprModel, p: int)
    requires
        0 <= p,
    ensures
        add_sub_rest(pre + t, lhs, pre.len() + p) == shifted(add_sub_rest(t, lhs, p), pre.len() as int),
    decreases t.len() - p, 5int,
{
    let u = pre + t;
    let n = pre.len() as int;
    if 0 <= p < t.len() {
        assert(u[n + p] == t[p]);
    }
    if tok_is(t, p, TokenModel::Plus) || tok_is(t, p, TokenModel::Minus) {
        let op = if tok_is(t, p, TokenModel::Plus) {
            BinaryOp::Add
        } else {
            BinaryOp::Sub
        };
        lemma_shift_mul_div(pre, t, p + 1);
        if let Ok((rhs, q)) = parse_mul_div_at(t, p + 1) {
            if p < q <= t.len() {
                lemma_shift_add_sub_rest(pre, t, bin(op, lhs, rhs), q);
            }
        }
    }
}

proof fn lemma_shift_mul_div(pre: Seq<TokenModel>, t: Seq<TokenModel>, p: int)
    requires
        0 <= p,
    ensures
        parse_mul_div_at(pre + t, pre.len() + p) == shifted(parse_mul_div_at(t, p), pre.len() as int),
    decreases t.len() - p, 4int,
{
    lemma_shift_unary(pre, t, p);
    if let Ok((lhs, q)) = parse_unary_at(t, p) {
        if p < q <= t.len() {
            lemma_shift_mul_div_rest(pre, t, lhs, q);
        }
    }
}

proof fn lemma_shift_mul_div_rest(pre: Seq<TokenModel>, t: Seq<TokenModel>, lhs: ExprModel, p: int)
    requires
        0 <= p,
    ensures
        mul_div_rest(pre + t, lhs, pre.len() + p) == shifted(mul_div_rest(t, lhs, p), pre.len() as int),
    decreases t.len() - p, 4int,
{
    let u = pre + t;
    let n = pre.len() as int;
    if 0 <= p < t.len() {
        assert(u[n + p] == t[p]);
    }
    if tok_is(t, p, TokenModel::Star) || tok_is(t, p, TokenModel::Slash) {
        let op = if tok_is(t, p, TokenModel::Star) {
            BinaryOp::Mul
        } else {
            BinaryOp::Div
        };
        lemma_shift_unary(pre, t, p + 1);
        if let Ok((rhs, q)) = parse_unary_at(t, p + 1) {
            if p < q <= t.len() {
                lemma_shift_mul_div_rest(pre, t, bin(op, lhs, rhs), q);
            }
        }
    }
}

proof fn lemma_shift_unary(pre: Seq<TokenModel>, t: Seq<TokenModel>, p: int)
    requires
        0 <= p,
    ensures
        parse_unary_at(pre + t, pre.len() + p) == shifted(parse_unary_at(t, p), pre.len() as int),
    decreases t.len() - p, 3int,
{
    let u = pre + t;
    let n = pre.len() as int;
    if 0 <= p < t.len() {
        assert(u[n + p] == t[p]);
    }
    if tok_is(t, p, TokenModel::Minus) {
        lemma_shift_unary(pre, t, p + 1);
    } else {
        lemma_shift_pow(pre, t, p);
    }
}

proof fn lemma_shift_pow(pre: Seq<TokenModel>, t: Seq<TokenModel>, p: int)
    requires
        0 <= p,
    ensures
        parse_pow_at(pre + t, pre.len() + p) == shifted(parse_pow_at(t, p), pre.len() as int),
    decreases t.len() - p, 2int,
{
    let u = pre + t;
    let n = pre.len() as int;
    lemma_shift_atom(pre, t, p);
    if let Ok((base, q)) = parse_atom_at(t, p) {
        if p < q <= t.len() {
            if q < t.len() {
                assert(u[n + q] == t[q]);
            }
            if tok_is(t, q, TokenModel::Caret) {
                lemma_shift_unary(pre, t, q + 1);
            }
        }
    }
}

/// Positions past `n` in `pre + t`, with `pre` of length `n`, hold the tokens of `t`.
proof fn lemma_shift_token(pre: Seq<TokenModel>, t: Seq<TokenModel>, q: int)
    requires
        0 <= q,
    ensures
        found_at(pre + t, pre.len() + q) == found_at(t, q),
        forall|x: TokenModel| tok_is(pre + t, pre.len() + q, x) == tok_is(t, q, x),
{
    if q < t.len() {
        assert((pre + t)[pre.len() + q] == t[q]);
    }
}

proof fn lemma_shift_atom(pre: Seq<TokenModel>, t: Seq<TokenModel>, p: int)
    requires
        0 <= p,
    ensures
        parse_atom_at(pre + t, pre.len() + p) == shifted(parse_atom_at(t, p), pre.len() as int),
    decreases t.len() - p, 1int,
{
    let u = pre + t;
    let n = pre.len() as int;
    if p < t.len() {
        assert(u[n + p] == t[p]);
        lemma_shift_token(pre, t, p + 1);
        if t[p] is Ident && t[p]->Ident_0 != seq!['p', 'i'] && t[p]->Ident_0 != seq!['e'] && tok_is(
            t,
            p + 1,
            TokenModel::LParen,
        ) {
            lemma_shift_call(pre, t, p);
        } else if t[p] is LParen {
            lemma_shift_group(pre, t, p);
        }
    }
}

proof fn lemma_shift_call(pre: Seq<TokenModel>, t: Seq<TokenModel>, p: int)
    requires
        0 <= p < t.len(),
        t[p] is Ident,
        t[p]->Ident_0 != seq!['p', 'i'],
        t[p]->Ident_0 != seq!['e'],
        tok_is(t, p + 1, TokenModel::LParen),
        (pre + t)[pre.len() + p] == t[p],
        tok_is(pre + t, pre.len() + p + 1, TokenModel::LParen),
    ensures
        parse_atom_at(pre + t, pre.len() + p) == shifted(parse_atom_at(t, p), pre.len() as int),
    decreases t.len() - p, 0int,
{
    let n = pre.len() as int;
    lemma_shift_expr(pre, t, p + 2);
    lemma_expr_progress(t, p + 2);
    assert(parse_expr_at(pre + t, n + p + 2) == shifted(parse_expr_at(t, p + 2), n));
    if let Ok((arg, q)) = parse_expr_at(t, p + 2) {
        lemma_shift_token(pre, t, q);
    }
}

proof fn lemma_shift_group(pre: Seq<TokenModel>, t: Seq<TokenModel>, p: int)
    requires
        0 <= p < t.len(),
        t[p] is LParen,
        (pre + t)[pre.len() + p] == t[p],
    ensures
        parse_atom_at(pre + t, pre.len() + p) == shifted(parse_atom_at(t, p), pre.len() as int),
    decreases t.len() - p, 0int,
{
    lemma_shift_expr(pre, t, p + 1);
    lemma_expr_progress(t, p + 1);
    if let Ok((inner, q)) = parse_expr_at(t, p + 1) {
        lemma_shift_token(pre, t, q);
    }
}

/// A parse of `t` that succeeds and ends before the end of `t`, or at its
/// end where `follows` holds of `t + r` (what comes after stops the parse).
pub open spec fn stops(res: Result<(ExprModel, int), ErrorModel>, t: Seq<TokenModel>, follows: bool) -> bool {
    res matches Ok((x, q)) && (q < t.len() || (q == t.len() && follows))
}

/// Tokens after the end of `t` leave the tokens of `t` where they are.
proof fn lemma_extend_token(t: Seq<TokenModel>, r: Seq<TokenModel>, q: int)
    requires
        0 <= q < t.len(),
    ensures
        found_at(t + r, q) == found_at(t, q),
        forall|x: TokenModel| tok_is(t + r, q, x) == tok_is(t, q, x),
{
    assert((t + r)[q] == t[q]);
}

/// An expression parses the same with more tokens after `t`, where it ends
/// inside `t`, or at its end and those tokens begin with `)` or are none.
pub proof fn lemma_extend_expr(t: Seq<TokenModel>, r: Seq<TokenModel>, p: int)
    requires
        0 <= p,
    ensures
        stops(parse_expr_at(t, p), t, follows_expr(t + r, t.len() as int)) ==> parse_expr_at(t + r, p)
            == parse_expr_at(t, p),
    decreases t.len() - p, 6int,
{
    lemma_extend_add_sub(t, r, p);
}

proof fn lemma_extend_add_sub(t: Seq<TokenModel>, r: Seq<TokenModel>, p: int)
    requires
        0 <= p,
    ensures
        stops(parse_add_sub_at(t, p), t, follows_expr(t + r, t.len() as int)) ==> parse_add_sub_at(t + r, p)
            == parse_add_sub_at(t, p),
    decreases t.len() - p, 5int,
{
    lemma_mul_div_progress(t, p);
    if let Ok((lhs, k)) = parse_mul_div_at(t, p) {
        if p < k <= t.len() {
            lemma_add_sub_rest_progress(t, lhs, k);
            lemma_extend_mul_div(t, r, p);
            lemma_extend_add_sub_rest(t, r, lhs, k);
        }
    }
}

proof fn lemma_extend_add_sub_rest(t: Seq<TokenModel>, r: Seq<TokenModel>, lhs: ExprModel, p: int)
    requires
        0 <= p <= t.len(),
    ensures
        stops(add_sub_rest(t, lhs, p), t, follows_expr(t + r, t.len() as int)) ==> add_sub_rest(t + r, lhs, p)
            == add_sub_rest(t, lhs, p),
    decreases t.len() - p, 5int,
{
    if stops(add_sub_rest(t, lhs, p), t, follows_expr(t + r, t.len() as int)) {
        lemma_add_sub_rest_progress(t, lhs, p);
        if p < t.len() {
            lemma_extend_token(t, r, p);
        }
        if tok_is(t, p, TokenModel::Plus) || tok_is(t, p, TokenModel::Minus) {
            let op = if tok_is(t, p, TokenModel::Plus) {
                BinaryOp::Add
            } else {
                BinaryOp::Sub
            };
            lemma_mul_div_progress(t, p + 1);
            if let Ok((rhs, k)) = parse_mul_div_at(t, p + 1) {
                lemma_add_sub_rest_progress(t, bin(op, lhs, rhs), k);
                lemma_extend_mul_div(t, r, p + 1);
                lemma_extend_add_sub_rest(t, r, bin(op, lhs, rhs), k);
            }
        }
    }
}

proof fn lemma_extend_mul_div(t: Seq<TokenModel>, r: Seq<TokenModel>, p: int)
    requires
        0 <= p,
    ensures
        stops(parse_mul_div_at(t, p), t, follows_term(t + r, t.len() as int)) ==> parse_mul_div_at(t + r, p)
            == parse_mul_div_at(t, p),
    decreases t.len() - p, 4int,
{
    lemma_unary_progress(t, p);
    if let Ok((lhs, k)) = parse_unary_at(t, p) {
        if p < k <= t.len() {
            lemma_mul_div_rest_progress(t, lhs, k);
            lemma_extend_unary(t, r, p);
            lemma_extend_mul_div_rest(t, r, lhs, k);
        }
    }
}

proof fn lemma_extend_mul_div_rest(t: Seq<TokenModel>, r: Seq<TokenModel>, lhs: ExprModel, p: int)
    requires
        0 <= p <= t.len(),
    ensures
        stops(mul_div_rest(t, lhs, p), t, follows_term(t + r, t.len() as int)) ==> mul_div_rest(t + r, lhs, p)
            == mul_div_rest(t, lhs, p),
    decreases t.len() - p, 4int,
{
    if stops(mul_div_rest(t, lhs, p), t, follows_term(t + r, t.len() as int)) {
        lemma_mul_div_rest_progress(t, lhs, p);
        if p < t.len() {
            lemma_extend_token(t, r, p);
        }
        if tok_is(t, p, TokenModel::Star) || tok_is(t, p, TokenModel::Slash) {
            let op = if tok_is(t, p, TokenModel::Star) {
                BinaryOp::Mul
            } else {
                BinaryOp::Div
            };
            lemma_unary_progress(t, p + 1);
            if let Ok((rhs, k)) = parse_unary_at(t, p + 1) {
                lemma_mul_div_rest_progress(t, bin(op, lhs, rhs), k);
                lemma_extend_unary(t, r, p + 1);
                lemma_extend_mul_div_rest(t, r, bin(op, lhs, rhs), k);
            }
        }
    }
}

proof fn lemma_extend_unary(t: Seq<TokenModel>, r: Seq<TokenModel>, p: int)
    requires
        0 <= p,
    ensures
        stops(parse_unary_at(t, p), t, follows_unary(t + r, t.len() as int)) ==> parse_unary_at(t + r, p)
            == parse_unary_at(t, p),
    decreases t.len() - p, 3int,
{
    if stops(parse_unary_at(t, p), t, follows_unary(t + r, t.len() as int)) {
        lemma_unary_progress(t, p);
        lemma_extend_token(t, r, p);
        if tok_is(t, p, TokenModel::Minus) {
            lemma_extend_unary(t, r, p + 1);
        } else {
            lemma_extend_pow(t, r, p);
        }
    }
}

proof fn lemma_extend_pow(t: Seq<TokenModel>, r: Seq<TokenModel>, p: int)
    requires
        0 <= p,
    ensures
        stops(parse_pow_at(t, p), t, follows_unary(t + r, t.len() as int)) ==> parse_pow_at(t + r, p)
            == parse_pow_at(t, p),
    decreases t.len() - p, 2int,
{
    lemma_atom_progress(t, p);
    if let Ok((base, k)) = parse_atom_at(t, p) {
        if p < k <= t.len() {
            lemma_extend_atom(t, r, p);
            if k < t.len() {
                lemma_extend_token(t, r, k);
            }
            if tok_is(t, k, TokenModel::Caret) {
                lemma_extend_unary(t, r, k + 1);
            }
        }
    }
}

/// An atom parses the same with more tokens after it: it never looks past
/// its own last token.
pub proof fn lemma_extend_atom(t: Seq<TokenModel>, r: Seq<TokenModel>, p: int)
    requires
        0 <= p,
    ensures
        parse_atom_at(t, p) is Ok ==> parse_atom_at(t + r, p) == parse_atom_at(t, p),
    decreases t.len() - p, 1int,
{
    if parse_atom_at(t, p) is Ok {
        lemma_extend_token(t, r, p);
        match t[p] {
            TokenModel::Ident(name) => {
                if tok_is(t, p + 1, TokenModel::LParen) {
                    lemma_extend_token(t, r, p + 1);
                    lemma_expr_progress(t, p + 2);
                    lemma_extend_expr(t, r, p + 2);
                    if let Ok((arg, q)) = parse_expr_at(t, p + 2) {
                        if q < t.len() {
                            lemma_extend_token(t, r, q);
                        }
                    }
                }
            },
            TokenModel::LParen => {
                lemma_expr_progress(t, p + 1);
                lemma_extend_expr(t, r, p + 1);
                if let Ok((inner, q)) = parse_expr_at(t, p + 1) {
                    if q < t.len() {
                        lemma_extend_token(t, r, q);
                    }
                }
            },
            _ => {},
        }
    }
}

/// Tokens that parse whole as a term parse whole as an expression, to the
/// same tree.
proof fn lemma_whole_term(s: Seq<TokenModel>, e: ExprModel)
    requires
        parse_mul_div_at(s, 0) == Ok::<(ExprModel, int), ErrorModel>((e, s.len() as int)),
    ensures
        parse_expr_at(s, 0) == Ok::<(ExprModel, int), ErrorModel>((e, s.len() as int)),
        parse_tokens(s) == Ok::<ExprModel, ErrorModel>(e),
{
    lemma_mul_div_progress(s, 0);
    assert(add_sub_rest(s, e, s.len() as int) == Ok::<(ExprModel, int), ErrorModel>((e, s.len() as int)));
    assert(parse_expr_at(s, 0) == Ok::<(ExprModel, int), ErrorModel>((e, s.len() as int)));
}

/// Tokens that parse whole as a unary operand parse whole as an expression,
/// to the same tree.
proof fn lemma_whole_unary(s: Seq<TokenModel>, e: ExprModel)
    requires
        parse_unary_at(s, 0) == Ok::<(ExprModel, int), ErrorModel>((e, s.len() as int)),
    ensures
        parse_mul_div_at(s, 0) == Ok::<(ExprModel, int), ErrorModel>((e, s.len() as int)),
        parse_tokens(s) == Ok::<ExprModel, ErrorModel>(e),
{
    lemma_unary_progress(s, 0);
    assert(mul_div_rest(s, e, s.len() as int) == Ok::<(ExprModel, int), ErrorModel>((e, s.len() as int)));
    assert(parse_mul_div_at(s, 0) == Ok::<(ExprModel, int), ErrorModel>((e, s.len() as int)));
    lemma_whole_term(s, e);
}

/// Tokens that parse whole as an atom parse whole as a unary operand and as
/// an expression, to the same tree.
proof fn lemma_whole_atom(s: Seq<TokenModel>, e: ExprModel)
    requires
        parse_atom_at(s, 0) == Ok::<(ExprModel, int), ErrorModel>((e, s.len() as int)),
    ensures
        parse_unary_at(s, 0) == Ok::<(ExprModel, int), ErrorModel>((e, s.len() as int)),
        parse_tokens(s) == Ok::<ExprModel, ErrorModel>(e),
{
    lemma_atom_progress(s, 0);
    assert(parse_pow_at(s, 0) == Ok::<(ExprModel, int), ErrorModel>((e, s.len() as int)));
    assert(!tok_is(s, 0, TokenModel::Minus));
    lemma_whole_unary(s, e);
}

/// A minus sign before tokens that parse whole as a unary operand `u`
/// negates all of `u`: the tokens `- U` parse to the negation of `u`, also
/// where `U` is a bare atom or a call.
pub proof fn lemma_minus_before_operand(tu: Seq<TokenModel>, u: ExprModel)
    requires
        parse_unary_at(tu, 0) == Ok::<(ExprModel, int), ErrorModel>((u, tu.len() as int)),
    ensures
        parse_unary_at(seq![TokenModel::Minus] + tu, 0) == Ok::<(ExprModel, int), ErrorModel>(
            (ExprModel::UnaryMinus(Box::new(u)), tu.len() + 1int),
        ),
        parse_tokens(seq![TokenModel::Minus] + tu) == Ok::<ExprModel, ErrorModel>(
            ExprModel::UnaryMinus(Box::new(u)),
        ),
{
    let s = seq![TokenModel::Minus] + tu;
    lemma_shift_unary(seq![TokenModel::Minus], tu, 0);
    assert(s[0] == TokenModel::Minus);
    lemma_whole_unary(s, ExprModel::UnaryMinus(Box::new(u)));
}

/// `^` between tokens that parse whole as an atom `a` and tokens that parse
/// whole as a unary operand `u` raises all of `a` to `u`: the base of a power
/// is the whole atom, a number, `t`, a constant, a call or a group.
pub proof fn lemma_power_of_atom(ta: Seq<TokenModel>, a: ExprModel, tu: Seq<TokenModel>, u: ExprModel)
    requires
        parse_atom_at(ta, 0) == Ok::<(ExprModel, int), ErrorModel>((a, ta.len() as int)),
        parse_unary_at(tu, 0) == Ok::<(ExprModel, int), ErrorModel>((u, tu.len() as int)),
    ensures
        parse_unary_at(ta + seq![TokenModel::Caret] + tu, 0) == Ok::<(ExprModel, int), ErrorModel>(
            (bin(BinaryOp::Pow, a, u), ta.len() + 1int + tu.len()),
        ),
        parse_tokens(ta + seq![TokenModel::Caret] + tu) == Ok::<ExprModel, ErrorModel>(
            bin(BinaryOp::Pow, a, u),
        ),
{
    let pre = ta + seq![TokenModel::Caret];
    let s = pre + tu;
    let rest = seq![TokenModel::Caret] + tu;
    assert(s =~= ta + rest);
    lemma_atom_progress(ta, 0);
    lemma_extend_atom(ta, rest, 0);
    assert(s[ta.len() as int] == TokenModel::Caret);
    assert(s[0] == ta[0]);
    lemma_shift_unary(pre, tu, 0);
    assert(parse_pow_at(s, 0) == Ok::<(ExprModel, int), ErrorModel>(
        (bin(BinaryOp::Pow, a, u), s.len() as int),
    ));
    lemma_whole_unary(s, bin(BinaryOp::Pow, a, u));
}

/// After a sum that ends at the end of `t`, tokens that begin with `+`, `-`
/// or `)` leave it as it was: the parse goes on from its tree.
proof fn lemma_continue_sum(t: Seq<TokenModel>, r: Seq<TokenModel>, lhs: ExprModel, p: int)
    requires
        0 <= p <= t.len(),
        add_sub_rest(t, lhs, p) matches Ok((e, q)) && q == t.len(),
        follows_term(t + r, t.len() as int),
    ensures
        add_sub_rest(t + r, lhs, p) == add_sub_rest(t + r, add_sub_rest(t, lhs, p)->Ok_0.0, t.len() as int),
    decreases t.len() - p,
{
    if p < t.len() {
        lemma_extend_token(t, r, p);
        let op = if tok_is(t, p, TokenModel::Plus) {
            BinaryOp::Add
        } else {
            BinaryOp::Sub
        };
        lemma_mul_div_progress(t, p + 1);
        let (rhs, k) = parse_mul_div_at(t, p + 1)->Ok_0;
        lemma_extend_mul_div(t, r, p + 1);
        lemma_continue_sum(t, r, bin(op, lhs, rhs), k);
    }
}

/// After a product that ends at the end of `t`, tokens that begin with `*`,
/// `/`, `+`, `-` or `)` leave it as it was: the parse goes on from its tree.
proof fn lemma_continue_product(t: Seq<TokenModel>, r: Seq<TokenModel>, lhs: ExprModel, p: int)
    requires
        0 <= p <= t.len(),
        mul_div_rest(t, lhs, p) matches Ok((e, q)) && q == t.len(),
        follows_unary(t + r, t.len() as int),
    ensures
        mul_div_rest(t + r, lhs, p) == mul_div_rest(t + r, mul_div_rest(t, lhs, p)->Ok_0.0, t.len() as int),
    decreases t.len() - p,
{
    if p < t.len() {
        lemma_extend_token(t, r, p);
        let op = if tok_is(t, p, TokenModel::Star) {
            BinaryOp::Mul
        } else {
            BinaryOp::Div
        };
        lemma_unary_progress(t, p + 1);
        let (rhs, k) = parse_unary_at(t, p + 1)->Ok_0;
        lemma_extend_unary(t, r, p + 1);
        lemma_continue_product(t, r, bin(op, lhs, rhs), k);
    }
}

/// `+` or `-` between tokens that parse whole as an expression `a` and
/// tokens that parse whole as a term `b` gives `a + b` or `a - b`: a sum
/// takes all that comes before it as its left operand (grouping from the
/// left) and a whole term as its right one.
pub proof fn lemma_sum_of_operands(op: BinaryOp, ta: Seq<TokenModel>, a: ExprModel, tb: Seq<TokenModel>, b: ExprModel)
    requires
        op == BinaryOp::Add || op == BinaryOp::Sub,
        parse_expr_at(ta, 0) == Ok::<(ExprModel, int), ErrorModel>((a, ta.len() as int)),
        parse_mul_div_at(tb, 0) == Ok::<(ExprModel, int), ErrorModel>((b, tb.len() as int)),
    ensures
        parse_expr_at(ta + seq![op_token(op)] + tb, 0) == Ok::<(ExprModel, int), ErrorModel>(
            (bin(op, a, b), ta.len() + 1int + tb.len()),
        ),
        parse_tokens(ta + seq![op_token(op)] + tb) == Ok::<ExprModel, ErrorModel>(bin(op, a, b)),
{
    let pre = ta + seq![op_token(op)];
    let s = pre + tb;
    let rest = seq![op_token(op)] + tb;
    let n = ta.len() as int;
    assert(s =~= ta + rest);
    assert(s[n] == op_token(op));
    assert(follows_term(ta + rest, n));
    lemma_mul_div_progress(ta, 0);
    let (lhs, k) = parse_mul_div_at(ta, 0)->Ok_0;
    assert(add_sub_rest(ta, lhs, k) == Ok::<(ExprModel, int), ErrorModel>((a, n)));
    lemma_extend_mul_div(ta, rest, 0);
    assert(parse_mul_div_at(s, 0) == Ok::<(ExprModel, int), ErrorModel>((lhs, k)));
    lemma_add_sub_rest_progress(ta, lhs, k);
    lemma_continue_sum(ta, rest, lhs, k);
    assert(add_sub_rest(s, lhs, k) == add_sub_rest(s, a, n));
    lemma_shift_mul_div(pre, tb, 0);
    assert(parse_mul_div_at(s, n + 1) == Ok::<(ExprModel, int), ErrorModel>((b, s.len() as int)));
    lemma_sum_step(s, op, a, b, n);
    assert(parse_add_sub_at(s, 0) == add_sub_rest(s, lhs, k));
}

/// An additive operator at `n` followed by a term that runs to the end
/// joins the tree before it with that term.
proof fn lemma_sum_step(s: Seq<TokenModel>, op: BinaryOp, a: ExprModel, b: ExprModel, n: int)
    requires
        op == BinaryOp::Add || op == BinaryOp::Sub,
        0 <= n < s.len(),
        s[n] == op_token(op),
        parse_mul_div_at(s, n + 1) == Ok::<(ExprModel, int), ErrorModel>((b, s.len() as int)),
    ensures
        add_sub_rest(s, a, n) == Ok::<(ExprModel, int), ErrorModel>((bin(op, a, b), s.len() as int)),
{
    assert(add_sub_rest(s, bin(op, a, b), s.len() as int) == Ok::<(ExprModel, int), ErrorModel>(
        (bin(op, a, b), s.len() as int),
    ));
}

/// `*` or `/` between tokens that parse whole as a term `a` and tokens that
/// parse whole as a unary operand `b` gives `a * b` or `a / b`: a product
/// takes the whole term before it as its left operand (grouping from the
/// left) and a whole unary operand as its right one.
pub proof fn lemma_product_of_operands(op: BinaryOp, ta: Seq<TokenModel>, a: ExprModel, tb: Seq<TokenModel>, b: ExprModel)
    requires
        op == BinaryOp::Mul || op == BinaryOp::Div,
        parse_mul_div_at(ta, 0) == Ok::<(ExprModel, int), ErrorModel>((a, ta.len() as int)),
        parse_unary_at(tb, 0) == Ok::<(ExprModel, int), ErrorModel>((b, tb.len() as int)),
    ensures
        parse_mul_div_at(ta + seq![op_token(op)] + tb, 0) == Ok::<(ExprModel, int), ErrorModel>(
            (bin(op, a, b), ta.len() + 1int + tb.len()),
        ),
        parse_tokens(ta + seq![op_token(op)] + tb) == Ok::<ExprModel, ErrorModel>(bin(op, a, b)),
{
    let pre = ta + seq![op_token(op)];
    let s = pre + tb;
    let rest = seq![op_token(op)] + tb;
    let n = ta.len() as int;
    assert(s =~= ta + rest);
    assert(s[n] == op_token(op));
    assert(follows_unary(ta + rest, n));
    lemma_unary_progress(ta, 0);
    let (lhs, k) = parse_unary_at(ta, 0)->Ok_0;
    assert(mul_div_rest(ta, lhs, k) == Ok::<(ExprModel, int), ErrorModel>((a, n)));
    lemma_extend_unary(ta, rest, 0);
    assert(parse_unary_at(s, 0) == Ok::<(ExprModel, int), ErrorModel>((lhs, k)));
    lemma_mul_div_rest_progress(ta, lhs, k);
    lemma_continue_product(ta, rest, lhs, k);
    assert(mul_div_rest(s, lhs, k) == mul_div_rest(s, a, n));
    lemma_shift_unary(pre, tb, 0);
    assert(parse_unary_at(s, n + 1) == Ok::<(ExprModel, int), ErrorModel>((b, s.len() as int)));
    lemma_product_step(s, op, a, b, n);
    assert(parse_mul_div_at(s, 0) == mul_div_rest(s, lhs, k));
    lemma_whole_term(s, bin(op, a, b));
}

/// A multiplicative operator at `n` followed by a unary operand that runs to
/// the end joins the tree before it with that operand.
proof fn lemma_product_step(s: Seq<TokenModel>, op: BinaryOp, a: ExprModel, b: ExprModel, n: int)
    requires
        op == BinaryOp::Mul || op == BinaryOp::Div,
        0 <= n < s.len(),
        s[n] == op_token(op),
        parse_unary_at(s, n + 1) == Ok::<(ExprModel, int), ErrorModel>((b, s.len() as int)),
    ensures
        mul_div_rest(s, a, n) == Ok::<(ExprModel, int), ErrorModel>((bin(op, a, b), s.len() as int)),
{
    assert(mul_div_rest(s, bin(op, a, b), s.len() as int) == Ok::<(ExprModel, int), ErrorModel>(
        (bin(op, a, b), s.len() as int),
    ));
}

/// A name that is not a constant, then `(`, tokens that parse whole as an
/// expression `e`, and `)`, is a call of that name on all of `e`.
pub proof fn lemma_call_of_expr(name: Seq<char>, te: Seq<TokenModel>, e: ExprModel)
    requires
        name != seq!['p', 'i'],
        name != seq!['e'],
        parse_expr_at(te, 0) == Ok::<(ExprModel, int), ErrorModel>((e, te.len() as int)),
    ensures
        parse_atom_at(seq![TokenModel::Ident(name), TokenModel::LParen] + te + seq![TokenModel::RParen], 0)
            == Ok::<(ExprModel, int), ErrorModel>((ExprModel::Call { name, arg: Box::new(e) }, te.len() + 3int)),
        parse_tokens(seq![TokenModel::Ident(name), TokenModel::LParen] + te + seq![TokenModel::RParen])
            == Ok::<ExprModel, ErrorModel>(ExprModel::Call { name, arg: Box::new(e) }),
{
    let pre = seq![TokenModel::Ident(name), TokenModel::LParen];
    let inner = te + seq![TokenModel::RParen];
    let s = pre + inner;
    assert(s =~= seq![TokenModel::Ident(name), TokenModel::LParen] + te + seq![TokenModel::RParen]);
    assert(inner[te.len() as int] == TokenModel::RParen);
    lemma_extend_expr(te, seq![TokenModel::RParen], 0);
    lemma_shift_expr(pre, inner, 0);
    assert(s[0] == TokenModel::Ident(name));
    assert(s[1] == TokenModel::LParen);
    assert(s[te.len() + 2int] == TokenModel::RParen);
    lemma_whole_atom(s, ExprModel::Call { name, arg: Box::new(e) });
}

/// `(`, tokens that parse whole as an expression `e`, and `)` give `e`.
pub proof fn lemma_group_of_expr(te: Seq<TokenModel>, e: ExprModel)
    requires
        parse_expr_at(te, 0) == Ok::<(ExprModel, int), ErrorModel>((e, te.len() as int)),
    ensures
        parse_atom_at(seq![TokenModel::LParen] + te + seq![TokenModel::RParen], 0) == Ok::<
            (ExprModel, int),
            ErrorModel,
        >((e, te.len() + 2int)),
        parse_tokens(seq![TokenModel::LParen] + te + seq![TokenModel::RParen]) == Ok::<ExprModel, ErrorModel>(e),
{
    let pre = seq![TokenModel::LParen];
    let inner = te + seq![TokenModel::RParen];
    let s = pre + inner;
    assert(s =~= seq![TokenModel::LParen] + te + seq![TokenModel::RParen]);
    assert(inner[te.len() as int] == TokenModel::RParen);
    lemma_extend_expr(te, seq![TokenModel::RParen], 0);
    lemma_shift_expr(pre, inner, 0);
    assert(s[0] == TokenModel::LParen);
    assert(s[te.len() + 1int] == TokenModel::RParen);
    lemma_whole_atom(s, e);
}

/// A single token reads as: a number as that number, `t` as the parameter,
/// `pi` and `e` as the constants; any other name alone is a call that misses
/// its `(`.
pub proof fn lemma_single_token(tok: TokenModel)
    ensures
        tok is Num ==> parse_tokens(seq![tok]) == Ok::<ExprModel, ErrorModel>(ExprModel::Num(tok->Num_0)),
        tok is T ==> parse_tokens(seq![tok]) == Ok::<ExprModel, ErrorModel>(ExprModel::T),
        tok == TokenModel::Ident(seq!['p', 'i']) ==> parse_tokens(seq![tok]) == Ok::<ExprModel, ErrorModel>(
            ExprModel::Pi,
        ),
        tok == TokenModel::Ident(seq!['e']) ==> parse_tokens(seq![tok]) == Ok::<ExprModel, ErrorModel>(
            ExprModel::Euler,
        ),
        tok is Ident && tok != TokenModel::Ident(seq!['p', 'i']) && tok != TokenModel::Ident(seq!['e'])
            ==> parse_tokens(seq![tok]) == Err::<ExprModel, ErrorModel>(
            ErrorModel::Expected { expected: TokenModel::LParen, found: None },
        ),
{
    let s = seq![tok];
    if tok is Num {
        lemma_whole_atom(s, ExprModel::Num(tok->Num_0));
    } else if tok is T {
        lemma_whole_atom(s, ExprModel::T);
    } else if tok == TokenModel::Ident(seq!['p', 'i']) {
        lemma_whole_atom(s, ExprModel::Pi);
    } else if tok == TokenModel::Ident(seq!['e']) {
        lemma_whole_atom(s, ExprModel::Euler);
    } else if tok is Ident {
        assert(parse_expr_at(s, 0) == Err::<(ExprModel, int), ErrorModel>(
            ErrorModel::Expected { expected: TokenModel::LParen, found: None },
        ));
    }
}

} // verus!
