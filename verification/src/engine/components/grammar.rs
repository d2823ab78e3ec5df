//! The grammar of expressions as a derivation relation on token spans, and
//! the law that parsing succeeds exactly on the token strings it derives.
use vstd::prelude::*;
use crate::engine::components::chars::is_blank;
use crate::engine::components::curve::compile_spec;
use crate::engine::components::lexer::lex;
use crate::engine::components::expr::{BinaryOp, ErrorModel, ExprModel};
use crate::engine::components::parser::{
    add_sub_rest, bin, lemma_atom_progress, lemma_expr_progress, lemma_mul_div_progress,
    lemma_unary_progress, mul_div_rest, parse_add_sub_at, parse_atom_at, parse_expr_at,
    parse_mul_div_at, parse_pow_at, parse_tokens, parse_unary_at, tok_is,
};
use crate::engine::components::token::TokenModel;

verus! {

/// `k` cuts the span `i..j` into two non-empty parts.
pub open spec fn cut(i: int, k: int, j: int) -> bool {
    i < k <= j
}

/// `k` ends a non-empty part that follows an operator at `i`, within `..j`.
pub open spec fn cut_after_op(i: int, k: int, j: int) -> bool {
    i + 1 < k <= j
}

/// `k` ends a non-empty part that starts at `i` and is followed, within
/// `..j`, by an operator and a non-empty part.
pub open spec fn cut_before_op(i: int, k: int, j: int) -> bool {
    i < k && k + 1 < j
}

/// Token `i` is `+` or `-`.
pub open spec fn additive_at(t: Seq<TokenModel>, i: int) -> bool {
    tok_is(t, i, TokenModel::Plus) || tok_is(t, i, TokenModel::Minus)
}

/// Token `i` is `*` or `/`.
pub open spec fn multiplicative_at(t: Seq<TokenModel>, i: int) -> bool {
    tok_is(t, i, TokenModel::Star) || tok_is(t, i, TokenModel::Slash)
}

/// `E := M (('+' | '-') M)*` derives the tokens `t[i..j]`.
pub open spec fn derives_expr(t: Seq<TokenModel>, i: int, j: int) -> bool
    decreases j - i, 6int,
{
    exists|k: int| #[trigger] cut(i, k, j) && derives_term(t, i, k) && derives_sum_tail(t, k, j)
}

/// `(('+' | '-') M)*` derives `t[i..j]`.
pub open spec fn derives_sum_tail(t: Seq<TokenModel>, i: int, j: int) -> bool
    decreases j - i, 5int,
{
    (i == j && 0 <= i <= t.len()) || (0 <= i < j && additive_at(t, i) && exists|k: int|
        #[trigger] cut_after_op(i, k, j) && derives_term(t, i + 1, k) && derives_sum_tail(t, k, j))
}

/// `M := U (('*' | '/') U)*` derives `t[i..j]`.
pub open spec fn derives_term(t: Seq<TokenModel>, i: int, j: int) -> bool
    decreases j - i, 4int,
{
    exists|k: int| #[trigger] cut(i, k, j) && derives_unary(t, i, k) && derives_product_tail(t, k, j)
}

/// `(('*' | '/') U)*` derives `t[i..j]`.
pub open spec fn derives_product_tail(t: Seq<TokenModel>, i: int, j: int) -> bool
    decreases j - i, 4int,
{
    (i == j && 0 <= i <= t.len()) || (0 <= i < j && multiplicative_at(t, i) && exists|k: int|
        #[trigger] cut_after_op(i, k, j) && derives_unary(t, i + 1, k) && derives_product_tail(t, k, j))
}

/// `U := '-' U | P` derives `t[i..j]`.
pub open spec fn derives_unary(t: Seq<TokenModel>, i: int, j: int) -> bool
    decreases j - i, 3int,
{
    (0 <= i < j && tok_is(t, i, TokenModel::Minus) && derives_unary(t, i + 1, j)) || derives_power(
        t,
        i,
        j,
    )
}

/// `P := A ('^' U)?` derives `t[i..j]`.
pub open spec fn derives_power(t: Seq<TokenModel>, i: int, j: int) -> bool
    decreases j - i, 2int,
{
    derives_atom(t, i, j) || exists|k: int|
        #[trigger] cut_before_op(i, k, j) && derives_atom(t, i, k) && tok_is(t, k, TokenModel::Caret)
            && derives_unary(t, k + 1, j)
}

/// A name that stands for a constant rather than a function.
pub open spec fn is_constant_name(n: Seq<char>) -> bool {
    n == seq!['p', 'i'] || n == seq!['e']
}

/// `A := number | 't' | 'pi' | 'e' | name '(' E ')' | '(' E ')'` derives `t[i..j]`,
/// where the name of a call is not that of a constant.
pub open spec fn derives_atom(t: Seq<TokenModel>, i: int, j: int) -> bool
    decreases j - i, 1int,
{
    &&& 0 <= i < j <= t.len()
    &&& {
        ||| j == i + 1 && (t[i] is Num || t[i] is T || (t[i] is Ident && is_constant_name(
            t[i]->Ident_0,
        )))
        ||| j >= i + 4 && t[i] is Ident && !is_constant_name(t[i]->Ident_0) && tok_is(
            t,
            i + 1,
            TokenModel::LParen,
        ) && tok_is(t, j - 1, TokenModel::RParen) && derives_expr(t, i + 2, j - 1)
        ||| j >= i + 3 && tok_is(t, i, TokenModel::LParen) && tok_is(t, j - 1, TokenModel::RParen)
            && derives_expr(t, i + 1, j - 1)
    }
}


proof fn lemma_expr_sound(t: Seq<TokenModel>, p: int)
    requires
        0 <= p,
    ensures
        (parse_expr_at(t, p) matches Ok((e, q)) ==> derives_expr(t, p, q)),
    decreases t.len() - p, 6int,
{
    lemma_add_sub_sound(t, p);
}

proof fn lemma_add_sub_sound(t: Seq<TokenModel>, p: int)
    requires
        0 <= p,
    ensures
        (parse_add_sub_at(t, p) matches Ok((e, q)) ==> derives_expr(t, p, q)),
    decreases t.len() - p, 5int,
{
    lemma_mul_div_sound(t, p);
    lemma_mul_div_progress(t, p);
    if let Ok((lhs, k)) = parse_mul_div_at(t, p) {
        lemma_add_sub_rest_sound(t, lhs, k);
        if let Ok((e, q)) = add_sub_rest(t, lhs, k) {
            assert(cut(p, k, q));
        }
    }
}

proof fn lemma_add_sub_rest_sound(t: Seq<TokenModel>, lhs: ExprModel, p: int)
    requires
        0 <= p <= t.len(),
    ensures
        (add_sub_rest(t, lhs, p) matches Ok((e, q)) ==> derives_sum_tail(t, p, q)),
    decreases t.len() - p, 5int,
{
    if additive_at(t, p) {
        let op = if tok_is(t, p, TokenModel::Plus) {
            BinaryOp::Add
        } else {
            BinaryOp::Sub
        };
        lemma_mul_div_sound(t, p + 1);
        lemma_mul_div_progress(t, p + 1);
        if let Ok((rhs, k)) = parse_mul_div_at(t, p + 1) {
            lemma_add_sub_rest_sound(t, bin(op, lhs, rhs), k);
            if let Ok((e, q)) = add_sub_rest(t, bin(op, lhs, rhs), k) {
                assert(cut_after_op(p, k, q));
            }
        }
    }
}

proof fn lemma_mul_div_sound(t: Seq<TokenModel>, p: int)
    requires
        0 <= p,
    ensures
        (parse_mul_div_at(t, p) matches Ok((e, q)) ==> derives_term(t, p, q)),
    decreases t.len() - p, 4int,
{
    lemma_unary_sound(t, p);
    lemma_unary_progress(t, p);
    if let Ok((lhs, k)) = parse_unary_at(t, p) {
        lemma_mul_div_rest_sound(t, lhs, k);
        if let Ok((e, q)) = mul_div_rest(t, lhs, k) {
            assert(cut(p, k, q));
        }
    }
}

proof fn lemma_mul_div_rest_sound(t: Seq<TokenModel>, lhs: ExprModel, p: int)
    requires
        0 <= p <= t.len(),
    ensures
        (mul_div_rest(t, lhs, p) matches Ok((e, q)) ==> derives_product_tail(t, p, q)),
    decreases t.len() - p, 4int,
{
    if multiplicative_at(t, p) {
        let op = if tok_is(t, p, TokenModel::Star) {
            BinaryOp::Mul
        } else {
            BinaryOp::Div
        };
        lemma_unary_sound(t, p + 1);
        lemma_unary_progress(t, p + 1);
        if let Ok((rhs, k)) = parse_unary_at(t, p + 1) {
            lemma_mul_div_rest_sound(t, bin(op, lhs, rhs), k);
            if let Ok((e, q)) = mul_div_rest(t, bin(op, lhs, rhs), k) {
                assert(cut_after_op(p, k, q));
            }
        }
    }
}

proof fn lemma_unary_sound(t: Seq<TokenModel>, p: int)
    requires
        0 <= p,
    ensures
        (parse_unary_at(t, p) matches Ok((e, q)) ==> derives_unary(t, p, q)),
    decreases t.len() - p, 3int,
{
    if tok_is(t, p, TokenModel::Minus) {
        lemma_unary_sound(t, p + 1);
        lemma_unary_progress(t, p + 1);
    } else {
        lemma_pow_sound(t, p);
    }
}

proof fn lemma_pow_sound(t: Seq<TokenModel>, p: int)
    requires
        0 <= p,
    ensures
        (parse_pow_at(t, p) matches Ok((e, q)) ==> derives_power(t, p, q)),
    decreases t.len() - p, 2int,
{
    lemma_atom_sound(t, p);
    lemma_atom_progress(t, p);
    if let Ok((base, k)) = parse_atom_at(t, p) {
        if p < k <= t.len() && tok_is(t, k, TokenModel::Caret) {
            lemma_unary_sound(t, k + 1);
            lemma_unary_progress(t, k + 1);
            if let Ok((x, q)) = parse_unary_at(t, k + 1) {
                assert(cut_before_op(p, k, q));
            }
        }
    }
}

proof fn lemma_atom_sound(t: Seq<TokenModel>, p: int)
    requires
        0 <= p,
    ensures
        (parse_atom_at(t, p) matches Ok((e, q)) ==> derives_atom(t, p, q)),
    decreases t.len() - p, 1int,
{
    if 0 <= p < t.len() {
        match t[p] {
            TokenModel::Ident(name) => {
                if !is_constant_name(name) && tok_is(t, p + 1, TokenModel::LParen) {
                    lemma_expr_sound(t, p + 2);
                    lemma_expr_progress(t, p + 2);
                }
            },
            TokenModel::LParen => {
                lemma_expr_sound(t, p + 1);
                lemma_expr_progress(t, p + 1);
            },
            _ => {},
        }
    }
}

/// What may follow an expression: the end of the tokens or a `)`.
pub open spec fn follows_expr(t: Seq<TokenModel>, j: int) -> bool {
    j == t.len() || tok_is(t, j, TokenModel::RParen)
}

/// What may follow a term: what follows an expression, or `+` or `-`.
pub open spec fn follows_term(t: Seq<TokenModel>, j: int) -> bool {
    follows_expr(t, j) || additive_at(t, j)
}

/// What may follow a unary operand: what follows a term, or `*` or `/`.
pub open spec fn follows_unary(t: Seq<TokenModel>, j: int) -> bool {
    follows_term(t, j) || multiplicative_at(t, j)
}

proof fn lemma_sum_tail_follow(t: Seq<TokenModel>, k: int, j: int)
    requires
        derives_sum_tail(t, k, j),
        follows_expr(t, j),
    ensures
        follows_term(t, k),
{
}

proof fn lemma_product_tail_follow(t: Seq<TokenModel>, k: int, j: int)
    requires
        derives_product_tail(t, k, j),
        follows_term(t, j),
    ensures
        follows_unary(t, k),
{
}

proof fn lemma_power_starts(t: Seq<TokenModel>, i: int, j: int)
    requires
        derives_power(t, i, j),
    ensures
        !tok_is(t, i, TokenModel::Minus),
{
}

proof fn lemma_expr_complete(t: Seq<TokenModel>, i: int, j: int)
    requires
        derives_expr(t, i, j),
        follows_expr(t, j),
    ensures
        parse_expr_at(t, i) matches Ok((e, q)) && q == j,
    decreases j - i, 6int,
{
    let k = choose|k: int| #[trigger] cut(i, k, j) && derives_term(t, i, k) && derives_sum_tail(t, k, j);
    lemma_sum_tail_follow(t, k, j);
    lemma_term_complete(t, i, k);
    lemma_mul_div_progress(t, i);
    let lhs = parse_mul_div_at(t, i)->Ok_0.0;
    lemma_sum_tail_complete(t, lhs, k, j);
}

proof fn lemma_sum_tail_complete(t: Seq<TokenModel>, lhs: ExprModel, i: int, j: int)
    requires
        derives_sum_tail(t, i, j),
        follows_expr(t, j),
    ensures
        add_sub_rest(t, lhs, i) matches Ok((e, q)) && q == j,
    decreases j - i, 5int,
{
    if i < j {
        let k = choose|k: int|
            #[trigger] cut_after_op(i, k, j) && derives_term(t, i + 1, k) && derives_sum_tail(t, k, j);
        let op = if tok_is(t, i, TokenModel::Plus) {
            BinaryOp::Add
        } else {
            BinaryOp::Sub
        };
        lemma_sum_tail_follow(t, k, j);
        lemma_term_complete(t, i + 1, k);
        lemma_mul_div_progress(t, i + 1);
        let rhs = parse_mul_div_at(t, i + 1)->Ok_0.0;
        lemma_sum_tail_complete(t, bin(op, lhs, rhs), k, j);
    }
}

proof fn lemma_term_complete(t: Seq<TokenModel>, i: int, j: int)
    requires
        derives_term(t, i, j),
        follows_term(t, j),
    ensures
        parse_mul_div_at(t, i) matches Ok((e, q)) && q == j,
    decreases j - i, 4int,
{
    let k = choose|k: int| #[trigger] cut(i, k, j) && derives_unary(t, i, k) && derives_product_tail(t, k, j);
    lemma_product_tail_follow(t, k, j);
    lemma_unary_complete(t, i, k);
    lemma_unary_progress(t, i);
    let lhs = parse_unary_at(t, i)->Ok_0.0;
    lemma_product_tail_complete(t, lhs, k, j);
}

proof fn lemma_product_tail_complete(t: Seq<TokenModel>, lhs: ExprModel, i: int, j: int)
    requires
        derives_product_tail(t, i, j),
        follows_term(t, j),
    ensures
        mul_div_rest(t, lhs, i) matches Ok((e, q)) && q == j,
    decreases j - i, 4int,
{
    if i < j {
        let k = choose|k: int|
            #[trigger] cut_after_op(i, k, j) && derives_unary(t, i + 1, k) && derives_product_tail(t, k, j);
        let op = if tok_is(t, i, TokenModel::Star) {
            BinaryOp::Mul
        } else {
            BinaryOp::Div
        };
        lemma_product_tail_follow(t, k, j);
        lemma_unary_complete(t, i + 1, k);
        lemma_unary_progress(t, i + 1);
        let rhs = parse_unary_at(t, i + 1)->Ok_0.0;
        lemma_product_tail_complete(t, bin(op, lhs, rhs), k, j);
    }
}

proof fn lemma_unary_complete(t: Seq<TokenModel>, i: int, j: int)
    requires
        derives_unary(t, i, j),
        follows_unary(t, j),
    ensures
        parse_unary_at(t, i) matches Ok((e, q)) && q == j,
    decreases j - i, 3int,
{
    if 0 <= i < j && tok_is(t, i, TokenModel::Minus) && derives_unary(t, i + 1, j) {
        lemma_unary_complete(t, i + 1, j);
    } else {
        lemma_power_starts(t, i, j);
        lemma_power_complete(t, i, j);
    }
}

proof fn lemma_power_complete(t: Seq<TokenModel>, i: int, j: int)
    requires
        derives_power(t, i, j),
        follows_unary(t, j),
    ensures
        parse_pow_at(t, i) matches Ok((e, q)) && q == j,
    decreases j - i, 2int,
{
    if derives_atom(t, i, j) {
        lemma_atom_complete(t, i, j);
    } else {
        let k = choose|k: int|
            #[trigger] cut_before_op(i, k, j) && derives_atom(t, i, k) && tok_is(t, k, TokenModel::Caret)
                && derives_unary(t, k + 1, j);
        lemma_atom_complete(t, i, k);
        lemma_unary_complete(t, k + 1, j);
    }
}

proof fn lemma_atom_complete(t: Seq<TokenModel>, i: int, j: int)
    requires
        derives_atom(t, i, j),
    ensures
        parse_atom_at(t, i) matches Ok((e, q)) && q == j,
    decreases j - i, 1int,
{
    if j >= i + 4 && t[i] is Ident && !is_constant_name(t[i]->Ident_0) && tok_is(t, i + 1, TokenModel::LParen)
        && tok_is(t, j - 1, TokenModel::RParen) && derives_expr(t, i + 2, j - 1) {
        lemma_expr_complete(t, i + 2, j - 1);
    } else if j >= i + 3 && tok_is(t, i, TokenModel::LParen) && tok_is(t, j - 1, TokenModel::RParen)
        && derives_expr(t, i + 1, j - 1) {
        lemma_expr_complete(t, i + 1, j - 1);
    }
}

/// A token sequence parses as a whole exactly when the expression grammar
/// derives all of it.
pub proof fn lemma_parse_ok_iff_derives(t: Seq<TokenModel>)
    ensures
        parse_tokens(t) is Ok <==> derives_expr(t, 0, t.len() as int),
{
    lemma_expr_sound(t, 0);
    lemma_expr_progress(t, 0);
    if derives_expr(t, 0, t.len() as int) {
        lemma_expr_complete(t, 0, t.len() as int);
    }
}

/// Compiling text succeeds exactly when the text is not blank, it lexes,
/// and the expression grammar derives the whole of its tokens.
pub proof fn lemma_compile_ok_iff_derives(s: Seq<char>)
    ensures
        compile_spec(s) is Ok <==> !is_blank(s) && (lex(s) matches Ok(toks) && derives_expr(
            toks,
            0,
            toks.len() as int,
        )),
{
    if let Ok(toks) = lex(s) {
        lemma_parse_ok_iff_derives(toks);
    }
}

} // verus!
