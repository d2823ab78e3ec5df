//! Laws on reading, writing and reading again.
use vstd::prelude::*;
use crate::engine::components::chars::{is_ident_continue, is_ident_start};
use crate::engine::components::curve::compile_spec;
use crate::engine::components::expr::{BinaryOp, ErrorModel, ExprModel};
use crate::engine::components::laws::{
    expr_text, is_name, lemma_compile_expr_text, lemma_lex_tokens_text, text_ready, tokens_text,
    writable,
};
use crate::engine::components::lexer::{
    ident_end, lex, lex_from, number_end, single_char_token, lemma_ident_end_bounds,
    lemma_number_end_bounds,
};
use crate::engine::components::parser::{
    add_sub_rest, bin, mul_div_rest, parse_add_sub_at, parse_atom_at, parse_expr_at,
    parse_mul_div_at, parse_pow_at, parse_tokens, parse_unary_at, tok_is,
};
use crate::engine::components::token::TokenModel;

verus! {

/// Every character of a scanned name may continue a name.
proof fn lemma_ident_chars(s: Seq<char>, i: int, k: int)
    requires
        0 <= i <= k < ident_end(s, i),
        ident_end(s, i) <= s.len(),
    ensures
        is_ident_continue(s[k]),
    decreases k - i,
{
    if i < s.len() && is_ident_continue(s[i]) {
        if k > i {
            lemma_ident_chars(s, i + 1, k);
        }
    }
}

pub open spec fn all_writable(ts: Seq<TokenModel>) -> bool {
    forall|k: int| 0 <= k < ts.len() ==> writable(#[trigger] ts[k])
}

/// Every token that tokenizing produces reads back as itself.
pub proof fn lemma_lex_writable(s: Seq<char>, i: int)
    requires
        0 <= i,
        lex_from(s, i) is Ok,
    ensures
        all_writable(lex_from(s, i)->Ok_0),
    decreases s.len() - i,
{
    if i < s.len() {
        let c = s[i];
        if c == ' ' || c == '\t' {
            lemma_lex_writable(s, i + 1);
        } else if single_char_token(c) is Some {
            lemma_lex_writable(s, i + 1);
            let rest = lex_from(s, i + 1)->Ok_0;
            let t = single_char_token(c)->0;
            assert forall|k: int| 0 <= k < (seq![t] + rest).len() implies writable(
                #[trigger] (seq![t] + rest)[k],
            ) by {
                if k > 0 {
                    assert((seq![t] + rest)[k] == rest[k - 1]);
                }
            }
        } else if crate::engine::components::chars::is_digit(c) || c == '.' {
            let j = number_end(s, i);
            lemma_number_end_bounds(s, i + 1);
            lemma_lex_writable(s, j);
            let rest = lex_from(s, j)->Ok_0;
            let t = TokenModel::Num(s.subrange(i, j));
            assert forall|k: int| 0 <= k < (seq![t] + rest).len() implies writable(
                #[trigger] (seq![t] + rest)[k],
            ) by {
                if k > 0 {
                    assert((seq![t] + rest)[k] == rest[k - 1]);
                }
            }
        } else if is_ident_start(c) {
            let j = ident_end(s, i);
            lemma_ident_end_bounds(s, i + 1);
            lemma_lex_writable(s, j);
            let rest = lex_from(s, j)->Ok_0;
            let name = s.subrange(i, j);
            assert(is_name(name) || name == seq!['t']) by {
                assert forall|k: int| 0 <= k < name.len() implies is_ident_continue(
                    #[trigger] name[k],
                ) by {
                    lemma_ident_chars(s, i, i + k);
                }
            }
            let t = if name == seq!['t'] {
                TokenModel::T
            } else {
                TokenModel::Ident(name)
            };
            assert forall|k: int| 0 <= k < (seq![t] + rest).len() implies writable(
                #[trigger] (seq![t] + rest)[k],
            ) by {
                if k > 0 {
                    assert((seq![t] + rest)[k] == rest[k - 1]);
                }
            }
        }
    }
}

/// Tokenizing is a normal form: writing the tokens of a text, separated by
/// spaces, and tokenizing again gives the same tokens.
pub proof fn lemma_lex_normal_form(s: Seq<char>)
    requires
        lex(s) is Ok,
    ensures
        lex(tokens_text(lex(s)->Ok_0)) == lex(s),
{
    lemma_lex_writable(s, 0);
    lemma_lex_tokens_text(lex(s)->Ok_0);
}

/// A parse result whose tree can be written out and read back.
pub open spec fn ready(r: Result<(ExprModel, int), ErrorModel>) -> bool {
    r matches Ok((e, q)) ==> text_ready(e)
}

proof fn lemma_expr_ready(toks: Seq<TokenModel>, p: int)
    requires
        0 <= p,
        all_writable(toks),
    ensures
        ready(parse_expr_at(toks, p)),
    decreases toks.len() - p, 6int,
{
    lemma_add_sub_ready(toks, p);
}

proof fn lemma_add_sub_ready(toks: Seq<TokenModel>, p: int)
    requires
        0 <= p,
        all_writable(toks),
    ensures
        ready(parse_add_sub_at(toks, p)),
    decreases toks.len() - p, 5int,
{
    lemma_mul_div_ready(toks, p);
    if let Ok((lhs, q)) = parse_mul_div_at(toks, p) {
        if p < q <= toks.len() {
            lemma_add_sub_rest_ready(toks, lhs, q);
        }
    }
}

proof fn lemma_add_sub_rest_ready(toks: Seq<TokenModel>, lhs: ExprModel, p: int)
    requires
        0 <= p <= toks.len(),
        all_writable(toks),
        text_ready(lhs),
    ensures
        ready(add_sub_rest(toks, lhs, p)),
    decreases toks.len() - p, 5int,
{
    if tok_is(toks, p, TokenModel::Plus) || tok_is(toks, p, TokenModel::Minus) {
        let op = if tok_is(toks, p, TokenModel::Plus) {
            BinaryOp::Add
        } else {
            BinaryOp::Sub
        };
        lemma_mul_div_ready(toks, p + 1);
        if let Ok((rhs, q)) = parse_mul_div_at(toks, p + 1) {
            if p < q <= toks.len() {
                lemma_add_sub_rest_ready(toks, bin(op, lhs, rhs), q);
            }
        }
    }
}

proof fn lemma_mul_div_ready(toks: Seq<TokenModel>, p: int)
    requires
        0 <= p,
        all_writable(toks),
    ensures
        ready(parse_mul_div_at(toks, p)),
    decreases toks.len() - p, 4int,
{
    lemma_unary_ready(toks, p);
    if let Ok((lhs, q)) = parse_unary_at(toks, p) {
        if p < q <= toks.len() {
            lemma_mul_div_rest_ready(toks, lhs, q);
        }
    }
}

proof fn lemma_mul_div_rest_ready(toks: Seq<TokenModel>, lhs: ExprModel, p: int)
    requires
        0 <= p <= toks.len(),
        all_writable(toks),
        text_ready(lhs),
    ensures
        ready(mul_div_rest(toks, lhs, p)),
    decreases toks.len() - p, 4int,
{
    if tok_is(toks, p, TokenModel::Star) || tok_is(toks, p, TokenModel::Slash) {
        let op = if tok_is(toks, p, TokenModel::Star) {
            BinaryOp::Mul
        } else {
            BinaryOp::Div
        };
        lemma_unary_ready(toks, p + 1);
        if let Ok((rhs, q)) = parse_unary_at(toks, p + 1) {
            if p < q <= toks.len() {
                lemma_mul_div_rest_ready(toks, bin(op, lhs, rhs), q);
            }
        }
    }
}

proof fn lemma_unary_ready(toks: Seq<TokenModel>, p: int)
    requires
        0 <= p,
        all_writable(toks),
    ensures
        ready(parse_unary_at(toks, p)),
    decreases toks.len() - p, 3int,
{
    if tok_is(toks, p, TokenModel::Minus) {
        lemma_unary_ready(toks, p + 1);
    } else {
        lemma_pow_ready(toks, p);
    }
}

proof fn lemma_pow_ready(toks: Seq<TokenModel>, p: int)
    requires
        0 <= p,
        all_writable(toks),
    ensures
        ready(parse_pow_at(toks, p)),
    decreases toks.len() - p, 2int,
{
    lemma_atom_ready(toks, p);
    if let Ok((base, q)) = parse_atom_at(toks, p) {
        if p < q <= toks.len() && tok_is(toks, q, TokenModel::Caret) {
            lemma_unary_ready(toks, q + 1);
        }
    }
}

proof fn lemma_atom_ready(toks: Seq<TokenModel>, p: int)
    requires
        0 <= p,
        all_writable(toks),
    ensures
        ready(parse_atom_at(toks, p)),
    decreases toks.len() - p, 1int,
{
    if 0 <= p < toks.len() {
        assert(writable(toks[p]));
        match toks[p] {
            TokenModel::Ident(name) => {
                if name != seq!['p', 'i'] && name != seq!['e'] && tok_is(
                    toks,
                    p + 1,
                    TokenModel::LParen,
                ) {
                    lemma_expr_ready(toks, p + 2);
                }
            },
            TokenModel::LParen => {
                lemma_expr_ready(toks, p + 1);
            },
            _ => {},
        }
    }
}

/// Compiling is a normal form: the written text of a compiled tree compiles
/// to the same tree.
pub proof fn lemma_recompile(s: Seq<char>)
    requires
        compile_spec(s) is Ok,
    ensures
        compile_spec(expr_text(compile_spec(s)->Ok_0)) == compile_spec(s),
{
    let toks = lex(s)->Ok_0;
    lemma_lex_writable(s, 0);
    lemma_expr_ready(toks, 0);
    assert(parse_tokens(toks) == compile_spec(s));
    lemma_compile_expr_text(compile_spec(s)->Ok_0);
}

} // verus!
