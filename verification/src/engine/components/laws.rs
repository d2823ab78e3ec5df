//! Laws of the expression language: what reading back a written expression
//! gives.
use vstd::prelude::*;
use crate::engine::components::expr::{BinaryOp, ErrorModel, ExprModel};
use crate::engine::components::parser::{
    add_sub_rest, bin, mul_div_rest, parse_add_sub_at, parse_atom_at, parse_expr_at,
    parse_mul_div_at, parse_pow_at, parse_tokens, parse_unary_at, tok_is,
};
use crate::engine::components::token::TokenModel;
use crate::engine::components::chars::{is_digit, is_ident_continue, is_ident_start, is_whitespace};
use crate::engine::components::lexer::{
    ident_end, is_decimal_mantissa, is_exponent_digits, is_exponent_mark,
    is_float_literal, is_sign, lex, lex_from, number_end, prepend,
};
use crate::engine::components::curve::compile_spec;

verus! {

/// A successful parse of `e` ending at `q`.
pub open spec fn ok_at(r: (ExprModel, int)) -> Result<(ExprModel, int), ErrorModel> {
    Ok(r)
}

/// The token of a binary operator.
pub open spec fn op_token(op: BinaryOp) -> TokenModel {
    match op {
        BinaryOp::Add => TokenModel::Plus,
        BinaryOp::Sub => TokenModel::Minus,
        BinaryOp::Mul => TokenModel::Star,
        BinaryOp::Div => TokenModel::Slash,
        BinaryOp::Pow => TokenModel::Caret,
    }
}

pub open spec fn paren(ts: Seq<TokenModel>) -> Seq<TokenModel> {
    seq![TokenModel::LParen] + ts + seq![TokenModel::RParen]
}

/// The tokens of an expression with every operand in parentheses.
pub open spec fn render(e: ExprModel) -> Seq<TokenModel>
    decreases e,
{
    match e {
        ExprModel::Num(lit) => seq![TokenModel::Num(lit)],
        ExprModel::Pi => seq![TokenModel::Ident(seq!['p', 'i'])],
        ExprModel::Euler => seq![TokenModel::Ident(seq!['e'])],
        ExprModel::T => seq![TokenModel::T],
        ExprModel::BinOp { op, lhs, rhs } => paren(render(*lhs)) + seq![op_token(op)] + paren(
            render(*rhs),
        ),
        ExprModel::UnaryMinus(inner) => seq![TokenModel::Minus] + paren(render(*inner)),
        ExprModel::Call { name, arg } => seq![TokenModel::Ident(name)] + paren(render(*arg)),
    }
}

/// The trees that rendering represents faithfully: no call is named like a
/// constant.
pub open spec fn calls_well_named(e: ExprModel) -> bool
    decreases e,
{
    match e {
        ExprModel::BinOp { op, lhs, rhs } => calls_well_named(*lhs) && calls_well_named(*rhs),
        ExprModel::UnaryMinus(inner) => calls_well_named(*inner),
        ExprModel::Call { name, arg } => name != seq!['p', 'i'] && name != seq!['e']
            && calls_well_named(*arg),
        _ => true,
    }
}

/// `ts` stands in `toks` from position `p` on.
pub open spec fn occurs_at(toks: Seq<TokenModel>, p: int, ts: Seq<TokenModel>) -> bool {
    &&& 0 <= p
    &&& p + ts.len() <= toks.len()
    &&& forall|k: int| 0 <= k < ts.len() ==> toks[p + k] == #[trigger] ts[k]
}

/// Position `q` ends an operand: the tokens end there or a `)` follows.
pub open spec fn closes(toks: Seq<TokenModel>, q: int) -> bool {
    q == toks.len() || tok_is(toks, q, TokenModel::RParen)
}

pub proof fn lemma_render_nonempty(e: ExprModel)
    ensures
        render(e).len() >= 1,
    decreases e,
{
}

/// A power that ends before a token that continues no product or sum is a
/// whole expression.
pub proof fn lemma_lift_unary(toks: Seq<TokenModel>, p: int, e: ExprModel, q: int)
    requires
        0 <= p < q <= toks.len(),
        parse_unary_at(toks, p) == ok_at((e, q)),
        closes(toks, q),
    ensures
        parse_expr_at(toks, p) == ok_at((e, q)),
{
    assert(mul_div_rest(toks, e, q) == ok_at((e, q)));
    assert(parse_mul_div_at(toks, p) == ok_at((e, q)));
    assert(add_sub_rest(toks, e, q) == ok_at((e, q)));
    assert(parse_add_sub_at(toks, p) == ok_at((e, q)));
}

/// An atom not followed by `^` is a power.
pub proof fn lemma_lift_atom(toks: Seq<TokenModel>, p: int, e: ExprModel, q: int)
    requires
        0 <= p < q <= toks.len(),
        parse_atom_at(toks, p) == ok_at((e, q)),
        !tok_is(toks, q, TokenModel::Caret),
    ensures
        parse_pow_at(toks, p) == ok_at((e, q)),
{
}


/// A parenthesised rendering is an atom.
pub proof fn lemma_parse_group(toks: Seq<TokenModel>, p: int, e: ExprModel)
    requires
        calls_well_named(e),
        occurs_at(toks, p, paren(render(e))),
    ensures
        parse_atom_at(toks, p) == ok_at((e, p + render(e).len() + 2)),
    decreases e, 3int,
{
    let r = render(e);
    let n = r.len() as int;
    assert(toks[p + 0] == paren(r)[0]);
    assert(toks[p] == TokenModel::LParen);
    assert(occurs_at(toks, p + 1, r)) by {
        assert forall|k: int| 0 <= k < r.len() implies toks[(p + 1) + k] == #[trigger] r[k] by {
            assert(toks[p + (k + 1)] == paren(r)[k + 1]);
        }
    }
    assert(toks[p + (n + 1)] == paren(r)[n + 1]);
    assert(tok_is(toks, p + 1 + n, TokenModel::RParen));
    lemma_parse_render(toks, p + 1, e);
}

/// `( l ) op ( r )`, with both groups parsed as atoms, is a whole expression.
proof fn lemma_binop_case(
    toks: Seq<TokenModel>,
    p: int,
    op: BinaryOp,
    l: ExprModel,
    rt: ExprModel,
    a: int,
    end: int,
)
    requires
        0 <= p < a,
        a + 1 < end <= toks.len(),
        tok_is(toks, p, TokenModel::LParen),
        tok_is(toks, a, op_token(op)),
        tok_is(toks, a + 1, TokenModel::LParen),
        parse_atom_at(toks, p) == ok_at((l, a)),
        parse_atom_at(toks, a + 1) == ok_at((rt, end)),
        closes(toks, end),
    ensures
        parse_expr_at(toks, p) == ok_at((bin(op, l, rt), end)),
{
    let b = a + 1;
    let e = bin(op, l, rt);
    lemma_lift_atom(toks, b, rt, end);
    assert(parse_unary_at(toks, b) == ok_at((rt, end)));
    if op == BinaryOp::Pow {
        assert(parse_pow_at(toks, p) == ok_at((e, end)));
        assert(parse_unary_at(toks, p) == ok_at((e, end)));
        lemma_lift_unary(toks, p, e, end);
    } else {
        lemma_lift_atom(toks, p, l, a);
        assert(parse_unary_at(toks, p) == ok_at((l, a)));
        if op == BinaryOp::Mul || op == BinaryOp::Div {
            assert(mul_div_rest(toks, e, end) == ok_at((e, end)));
            assert(mul_div_rest(toks, l, a) == ok_at((e, end)));
            assert(parse_mul_div_at(toks, p) == ok_at((e, end)));
            assert(add_sub_rest(toks, e, end) == ok_at((e, end)));
            assert(parse_add_sub_at(toks, p) == ok_at((e, end)));
        } else {
            assert(mul_div_rest(toks, l, a) == ok_at((l, a)));
            assert(parse_mul_div_at(toks, p) == ok_at((l, a)));
            assert(mul_div_rest(toks, rt, end) == ok_at((rt, end)));
            assert(parse_mul_div_at(toks, b) == ok_at((rt, end)));
            assert(add_sub_rest(toks, e, end) == ok_at((e, end)));
            assert(add_sub_rest(toks, l, a) == ok_at((e, end)));
            assert(parse_add_sub_at(toks, p) == ok_at((e, end)));
        }
    }
}

/// `- ( x )`, with the group parsed as an atom, is a whole expression.
proof fn lemma_minus_case(toks: Seq<TokenModel>, p: int, x: ExprModel, end: int)
    requires
        0 <= p,
        p + 1 < end <= toks.len(),
        tok_is(toks, p, TokenModel::Minus),
        tok_is(toks, p + 1, TokenModel::LParen),
        parse_atom_at(toks, p + 1) == ok_at((x, end)),
        closes(toks, end),
    ensures
        parse_expr_at(toks, p) == ok_at((ExprModel::UnaryMinus(Box::new(x)), end)),
{
    lemma_lift_atom(toks, p + 1, x, end);
    assert(parse_unary_at(toks, p + 1) == ok_at((x, end)));
    assert(parse_unary_at(toks, p) == ok_at((ExprModel::UnaryMinus(Box::new(x)), end)));
    lemma_lift_unary(toks, p, ExprModel::UnaryMinus(Box::new(x)), end);
}

/// An atom that is not a minus sign and ends where an operand closes is a
/// whole expression.
proof fn lemma_atom_case(toks: Seq<TokenModel>, p: int, e: ExprModel, end: int)
    requires
        0 <= p < end <= toks.len(),
        !tok_is(toks, p, TokenModel::Minus),
        parse_atom_at(toks, p) == ok_at((e, end)),
        closes(toks, end),
    ensures
        parse_expr_at(toks, p) == ok_at((e, end)),
{
    lemma_lift_atom(toks, p, e, end);
    lemma_lift_unary(toks, p, e, end);
}

/// The rendering of `op` applied to `l` and `rt`.
proof fn lemma_parse_render_binop(
    toks: Seq<TokenModel>,
    p: int,
    op: BinaryOp,
    l: ExprModel,
    rt: ExprModel,
)
    requires
        calls_well_named(l),
        calls_well_named(rt),
        occurs_at(toks, p, render(bin(op, l, rt))),
        closes(toks, p + render(bin(op, l, rt)).len()),
    ensures
        parse_expr_at(toks, p) == ok_at((bin(op, l, rt), p + render(bin(op, l, rt)).len())),
    decreases bin(op, l, rt), 1int,
{
    let r = render(bin(op, l, rt));
    let end = p + r.len();
    let rl = render(l);
    let rr = render(rt);
    let nl = rl.len() as int;
    let a = p + nl + 2;
    let b = a + 1;
    assert(r == paren(rl) + seq![op_token(op)] + paren(rr));
    assert(occurs_at(toks, p, paren(rl))) by {
        assert forall|k: int| 0 <= k < paren(rl).len() implies toks[p + k]
            == #[trigger] paren(rl)[k] by {
            assert(toks[p + k] == r[k]);
        }
    }
    assert(toks[p + (nl + 2)] == r[nl + 2]);
    assert(occurs_at(toks, b, paren(rr))) by {
        assert forall|k: int| 0 <= k < paren(rr).len() implies toks[b + k]
            == #[trigger] paren(rr)[k] by {
            assert(toks[p + (nl + 3 + k)] == r[nl + 3 + k]);
        }
    }
    lemma_parse_group(toks, p, l);
    lemma_parse_group(toks, b, rt);
    assert(toks[p + 0] == paren(rl)[0]);
    assert(toks[b + 0] == paren(rr)[0]);
    lemma_binop_case(toks, p, op, l, rt, a, end);
}

/// The rendering of a negation.
proof fn lemma_parse_render_minus(toks: Seq<TokenModel>, p: int, x: ExprModel)
    requires
        calls_well_named(x),
        occurs_at(toks, p, render(ExprModel::UnaryMinus(Box::new(x)))),
        closes(toks, p + render(ExprModel::UnaryMinus(Box::new(x))).len()),
    ensures
        parse_expr_at(toks, p) == ok_at(
            (
                ExprModel::UnaryMinus(Box::new(x)),
                p + render(ExprModel::UnaryMinus(Box::new(x))).len(),
            ),
        ),
    decreases ExprModel::UnaryMinus(Box::new(x)), 1int,
{
    let r = render(ExprModel::UnaryMinus(Box::new(x)));
    let end = p + r.len();
    let rx = render(x);
    assert(r == seq![TokenModel::Minus] + paren(rx));
    assert(occurs_at(toks, p + 1, paren(rx))) by {
        assert forall|k: int| 0 <= k < paren(rx).len() implies toks[(p + 1) + k]
            == #[trigger] paren(rx)[k] by {
            assert(toks[p + (k + 1)] == r[k + 1]);
        }
    }
    lemma_parse_group(toks, p + 1, x);
    assert(toks[p + 0] == r[0]);
    assert(toks[(p + 1) + 0] == paren(rx)[0]);
    lemma_minus_case(toks, p, x, end);
}

/// A call of `name` on `x`.
pub open spec fn call_of(name: Seq<char>, x: ExprModel) -> ExprModel {
    ExprModel::Call { name, arg: Box::new(x) }
}

/// The rendering of a call.
proof fn lemma_parse_render_call(toks: Seq<TokenModel>, p: int, name: Seq<char>, x: ExprModel)
    requires
        name != seq!['p', 'i'],
        name != seq!['e'],
        calls_well_named(x),
        occurs_at(toks, p, render(call_of(name, x))),
        closes(toks, p + render(call_of(name, x)).len()),
    ensures
        parse_expr_at(toks, p) == ok_at(
            (
                call_of(name, x),
                p + render(call_of(name, x)).len(),
            ),
        ),
    decreases call_of(name, x), 1int,
{
    let e = call_of(name, x);
    let r = render(e);
    let end = p + r.len();
    let rx = render(x);
    let nx = rx.len() as int;
    assert(r == seq![TokenModel::Ident(name)] + paren(rx));
    assert(toks[p + 0] == r[0]);
    assert(toks[p + 1] == r[1]);
    assert(occurs_at(toks, p + 2, rx)) by {
        assert forall|k: int| 0 <= k < rx.len() implies toks[(p + 2) + k] == #[trigger] rx[k] by {
            assert(toks[p + (k + 2)] == r[k + 2]);
        }
    }
    assert(toks[p + (nx + 2)] == r[nx + 2]);
    lemma_parse_render(toks, p + 2, x);
    assert(parse_atom_at(toks, p) == ok_at((e, end)));
    lemma_atom_case(toks, p, e, end);
}

/// Parsing the rendering of a tree, followed by the end of the tokens or by
/// `)`, gives the tree back and stops right after the rendering.
pub proof fn lemma_parse_render(toks: Seq<TokenModel>, p: int, e: ExprModel)
    requires
        calls_well_named(e),
        occurs_at(toks, p, render(e)),
        closes(toks, p + render(e).len()),
    ensures
        parse_expr_at(toks, p) == ok_at((e, p + render(e).len())),
    decreases e, 2int,
{
    match e {
        ExprModel::BinOp { op, lhs, rhs } => {
            lemma_parse_render_binop(toks, p, op, *lhs, *rhs);
        },
        ExprModel::UnaryMinus(inner) => {
            lemma_parse_render_minus(toks, p, *inner);
        },
        ExprModel::Call { name, arg } => {
            lemma_parse_render_call(toks, p, name, *arg);
        },
        _ => {
            let r = render(e);
            assert(toks[p + 0] == r[0]);
            assert(parse_atom_at(toks, p) == ok_at((e, p + 1)));
            lemma_atom_case(toks, p, e, p + 1);
        },
    }
}

/// Reading back the parenthesised tokens of a tree gives the tree.
pub proof fn lemma_parse_tokens_render(e: ExprModel)
    requires
        calls_well_named(e),
    ensures
        parse_tokens(render(e)) == Ok::<ExprModel, ErrorModel>(e),
{
    let toks = render(e);
    lemma_parse_render(toks, 0, e);
}


/// The shape of a number literal: digits, points, one exponent mark, and a
/// sign only right after the mark and before a digit.
proof fn lemma_literal_shape(l: Seq<char>)
    requires
        is_float_literal(l),
    ensures
        l.len() > 0,
        is_digit(l[0]) || l[0] == '.',
        forall|j: int|
            0 <= j < l.len() ==> is_digit(#[trigger] l[j]) || l[j] == '.' || is_exponent_mark(l[j])
                || is_sign(l[j]),
        forall|j: int|
            0 <= j < l.len() && is_sign(#[trigger] l[j]) ==> 1 <= j && is_exponent_mark(l[j - 1])
                && j + 1 < l.len() && is_digit(l[j + 1]),
{
    if is_decimal_mantissa(l) {
        let w = choose|i: int| 0 <= i < l.len() && is_digit(#[trigger] l[i]);
        assert(l.len() > 0);
        assert(is_digit(l[0]) || l[0] == '.');
    } else {
        let k = choose|k: int|
            0 <= k < l.len() && is_exponent_mark(#[trigger] l[k]) && is_decimal_mantissa(l.take(k))
                && is_exponent_digits(l.skip(k + 1));
        let m = l.take(k);
        let x = l.skip(k + 1);
        let w = choose|i: int| 0 <= i < m.len() && is_digit(#[trigger] m[i]);
        assert(m[0] == l[0]);
        assert(is_digit(m[0]) || m[0] == '.');
        assert forall|j: int|
            0 <= j < l.len() implies is_digit(#[trigger] l[j]) || l[j] == '.' || is_exponent_mark(
            l[j],
        ) || is_sign(l[j]) by {
            if j < k {
                assert(m[j] == l[j]);
            } else if j > k {
                assert(x[j - k - 1] == l[j]);
                if is_sign(x[0]) && j > k + 1 {
                    assert(x.skip(1)[j - k - 2] == x[j - k - 1]);
                }
            }
        }
        assert forall|j: int|
            0 <= j < l.len() && is_sign(#[trigger] l[j]) implies 1 <= j && is_exponent_mark(l[j - 1])
            && j + 1 < l.len() && is_digit(l[j + 1]) by {
            if j < k {
                assert(m[j] == l[j]);
            } else if j == k {
            } else {
                assert(x[j - k - 1] == l[j]);
                if j > k + 1 {
                    if is_sign(x[0]) {
                        assert(x.skip(1)[j - k - 2] == x[j - k - 1]);
                    }
                    assert(!is_sign(l[j]));
                } else {
                    assert(is_sign(x[0]));
                    assert(x.skip(1)[0] == x[1]);
                    assert(x[1] == l[j + 1]);
                }
            }
        }
    }
}

/// `l` stands in `s` at `i` and is followed by a space.
pub open spec fn spaced_at(s: Seq<char>, i: int, l: Seq<char>) -> bool {
    &&& 0 <= i
    &&& i + l.len() < s.len()
    &&& s[i + l.len()] == ' '
    &&& forall|k: int| 0 <= k < l.len() ==> s[i + k] == #[trigger] l[k]
}

/// Scanning a number from any position of a literal that is not a sign
/// ends right after the literal.
proof fn lemma_number_scan(s: Seq<char>, i: int, l: Seq<char>, m: int)
    requires
        is_float_literal(l),
        spaced_at(s, i, l),
        0 <= m <= l.len(),
        m == l.len() || !is_sign(l[m]),
    ensures
        number_end(s, i + m) == i + l.len(),
    decreases l.len() - m,
{
    lemma_literal_shape(l);
    if m < l.len() {
        let c = l[m];
        assert(s[i + m] == l[m]);
        if is_digit(c) || c == '.' {
            if m + 1 < l.len() && is_sign(l[m + 1]) {
                assert(is_exponent_mark(l[m]));
            }
            lemma_number_scan(s, i, l, m + 1);
        } else {
            assert(is_exponent_mark(c));
            if m + 1 < l.len() {
                assert(s[i + (m + 1)] == l[m + 1]);
                if is_sign(l[m + 1]) {
                    assert(is_digit(l[m + 2]));
                    lemma_number_scan(s, i, l, m + 2);
                } else {
                    lemma_number_scan(s, i, l, m + 1);
                }
            } else {
                lemma_number_scan(s, i, l, m + 1);
            }
        }
    }
}

/// A name: an ASCII letter or `_`, then letters, digits and `_`; not `t`,
/// which is the parameter.
pub open spec fn is_name(n: Seq<char>) -> bool {
    &&& n.len() > 0
    &&& is_ident_start(n[0])
    &&& forall|i: int| 0 <= i < n.len() ==> is_ident_continue(#[trigger] n[i])
    &&& n != seq!['t']
}

/// Scanning a name from any of its positions ends right after it.
proof fn lemma_ident_scan(s: Seq<char>, i: int, n: Seq<char>, m: int)
    requires
        spaced_at(s, i, n),
        forall|k: int| 0 <= k < n.len() ==> is_ident_continue(#[trigger] n[k]),
        0 <= m <= n.len(),
    ensures
        ident_end(s, i + m) == i + n.len(),
    decreases n.len() - m,
{
    if m < n.len() {
        assert(s[i + m] == n[m]);
        assert(is_ident_continue(n[m]));
        lemma_ident_scan(s, i, n, m + 1);
    } else {
        assert(!is_ident_continue(' '));
    }
}


/// The text of a token.
pub open spec fn token_text(t: TokenModel) -> Seq<char> {
    match t {
        TokenModel::Num(l) => l,
        TokenModel::T => seq!['t'],
        TokenModel::Plus => seq!['+'],
        TokenModel::Minus => seq!['-'],
        TokenModel::Star => seq!['*'],
        TokenModel::Slash => seq!['/'],
        TokenModel::Caret => seq!['^'],
        TokenModel::LParen => seq!['('],
        TokenModel::RParen => seq![')'],
        TokenModel::Ident(n) => n,
    }
}

/// The texts of tokens, each followed by a space.
pub open spec fn tokens_text(ts: Seq<TokenModel>) -> Seq<char>
    decreases ts.len(),
{
    if ts.len() == 0 {
        seq![]
    } else {
        token_text(ts[0]) + seq![' '] + tokens_text(ts.drop_first())
    }
}

/// A token whose text reads back as the same token: numbers must be
/// literals and identifiers names.
pub open spec fn writable(t: TokenModel) -> bool {
    match t {
        TokenModel::Num(l) => is_float_literal(l),
        TokenModel::Ident(n) => is_name(n),
        _ => true,
    }
}

pub proof fn lemma_writable_text_starts(t: TokenModel)
    requires
        writable(t),
    ensures
        token_text(t).len() > 0,
        !is_whitespace(token_text(t)[0]),
{
    if let TokenModel::Num(l) = t {
        lemma_literal_shape(l);
    }
}

/// Tokenizing the written tokens, from where they start to the end of the
/// text, gives the tokens back.
proof fn lemma_lex_text(s: Seq<char>, i: int, ts: Seq<TokenModel>)
    requires
        0 <= i <= s.len(),
        s.subrange(i, s.len() as int) == tokens_text(ts),
        forall|k: int| 0 <= k < ts.len() ==> writable(#[trigger] ts[k]),
    ensures
        lex_from(s, i) == Ok::<Seq<TokenModel>, ErrorModel>(ts),
    decreases ts.len(),
{
    if ts.len() == 0 {
        assert(s.subrange(i, s.len() as int).len() == 0);
        assert(ts =~= seq![]);
    } else {
        let t = ts[0];
        let tt = token_text(t);
        let rest = ts.drop_first();
        let j = i + tt.len();
        let sub = s.subrange(i, s.len() as int);
        assert(sub == tt + seq![' '] + tokens_text(rest));
        assert(spaced_at(s, i, tt)) by {
            assert forall|k: int| 0 <= k < tt.len() implies s[i + k] == #[trigger] tt[k] by {
                assert(sub[k] == tt[k]);
            }
            assert(sub[tt.len() as int] == ' ');
        }
        assert(s.subrange(j + 1, s.len() as int) =~= tokens_text(rest)) by {
            assert forall|k: int| 0 <= k < tokens_text(rest).len() implies s.subrange(
                j + 1,
                s.len() as int,
            )[k] == #[trigger] tokens_text(rest)[k] by {
                assert(sub[tt.len() + 1 + k] == tokens_text(rest)[k]);
            }
        }
        assert forall|k: int| 0 <= k < rest.len() implies writable(#[trigger] rest[k]) by {
            assert(rest[k] == ts[k + 1]);
        }
        lemma_lex_text(s, j + 1, rest);
        assert(lex_from(s, j) == Ok::<Seq<TokenModel>, ErrorModel>(rest));
        assert(ts =~= seq![t] + rest);
        assert(writable(ts[0]));
        assert(s[i + 0] == tt[0]);
        let tail = lex_from(s, j);
        match t {
            TokenModel::Num(l) => {
                lemma_literal_shape(l);
                lemma_number_scan(s, i, l, 0);
                assert(s.subrange(i, j) =~= l);
                assert(is_digit(s[i]) || s[i] == '.');
                assert(lex_from(s, i) == prepend(TokenModel::Num(l), tail));
            },
            TokenModel::Ident(n) => {
                lemma_ident_scan(s, i, n, 0);
                assert(s.subrange(i, j) =~= n);
                assert(is_ident_start(s[i]));
                assert(lex_from(s, i) == prepend(TokenModel::Ident(n), tail));
            },
            TokenModel::T => {
                lemma_ident_scan(s, i, seq!['t'], 0);
                assert(s.subrange(i, j) =~= seq!['t']);
                assert(lex_from(s, i) == prepend(TokenModel::T, tail));
            },
            _ => {
                assert(j == i + 1);
                assert(lex_from(s, i) == prepend(t, tail));
            },
        }
        assert(prepend(t, tail) == Ok::<Seq<TokenModel>, ErrorModel>(ts));
    }
}

/// The tokenizing law: written tokens read back as themselves.
pub proof fn lemma_lex_tokens_text(ts: Seq<TokenModel>)
    requires
        forall|k: int| 0 <= k < ts.len() ==> writable(#[trigger] ts[k]),
    ensures
        lex(tokens_text(ts)) == Ok::<Seq<TokenModel>, ErrorModel>(ts),
{
    let s = tokens_text(ts);
    assert(s.subrange(0, s.len() as int) =~= s);
    lemma_lex_text(s, 0, ts);
}

/// Compiling the text of tokens that read back as themselves parses those tokens.
pub proof fn lemma_compile_tokens_text(ts: Seq<TokenModel>)
    requires
        ts.len() > 0,
        forall|k: int| 0 <= k < ts.len() ==> writable(#[trigger] ts[k]),
    ensures
        compile_spec(tokens_text(ts)) == parse_tokens(ts),
{
    lemma_lex_tokens_text(ts);
    let s = tokens_text(ts);
    lemma_writable_text_starts(ts[0]);
    assert(s == token_text(ts[0]) + seq![' '] + tokens_text(ts.drop_first()));
    assert(s[0] == token_text(ts[0])[0]);
    assert(!is_whitespace(s[0]));
}

/// The trees whose text reads back as themselves: literals are numbers and
/// calls are named by names other than the constants.
pub open spec fn text_ready(e: ExprModel) -> bool
    decreases e,
{
    match e {
        ExprModel::Num(l) => is_float_literal(l),
        ExprModel::BinOp { op, lhs, rhs } => text_ready(*lhs) && text_ready(*rhs),
        ExprModel::UnaryMinus(inner) => text_ready(*inner),
        ExprModel::Call { name, arg } => is_name(name) && name != seq!['p', 'i'] && name
            != seq!['e'] && text_ready(*arg),
        _ => true,
    }
}

/// The text of an expression: its parenthesised tokens, separated by spaces.
pub open spec fn expr_text(e: ExprModel) -> Seq<char> {
    tokens_text(render(e))
}

pub proof fn lemma_writable_concat(a: Seq<TokenModel>, b: Seq<TokenModel>)
    requires
        forall|k: int| 0 <= k < a.len() ==> writable(#[trigger] a[k]),
        forall|k: int| 0 <= k < b.len() ==> writable(#[trigger] b[k]),
    ensures
        forall|k: int| 0 <= k < (a + b).len() ==> writable(#[trigger] (a + b)[k]),
{
    assert forall|k: int| 0 <= k < (a + b).len() implies writable(#[trigger] (a + b)[k]) by {
        if k < a.len() {
            assert((a + b)[k] == a[k]);
        } else {
            assert((a + b)[k] == b[k - a.len()]);
        }
    }
}

pub proof fn lemma_render_writable(e: ExprModel)
    requires
        text_ready(e),
    ensures
        calls_well_named(e),
        forall|k: int| 0 <= k < render(e).len() ==> writable(#[trigger] render(e)[k]),
    decreases e,
{
    let lp = seq![TokenModel::LParen];
    let rp = seq![TokenModel::RParen];
    assert(writable(lp[0]) && writable(rp[0]));
    match e {
        ExprModel::BinOp { op, lhs, rhs } => {
            lemma_render_writable(*lhs);
            lemma_render_writable(*rhs);
            let o = seq![op_token(op)];
            assert(writable(o[0]));
            lemma_writable_concat(lp, render(*lhs));
            lemma_writable_concat(lp + render(*lhs), rp);
            lemma_writable_concat(paren(render(*lhs)), o);
            lemma_writable_concat(lp, render(*rhs));
            lemma_writable_concat(lp + render(*rhs), rp);
            lemma_writable_concat(paren(render(*lhs)) + o, paren(render(*rhs)));
        },
        ExprModel::UnaryMinus(inner) => {
            lemma_render_writable(*inner);
            let m = seq![TokenModel::Minus];
            assert(writable(m[0]));
            lemma_writable_concat(lp, render(*inner));
            lemma_writable_concat(lp + render(*inner), rp);
            lemma_writable_concat(m, paren(render(*inner)));
        },
        ExprModel::Call { name, arg } => {
            lemma_render_writable(*arg);
            let c = seq![TokenModel::Ident(name)];
            assert(writable(c[0]));
            lemma_writable_concat(lp, render(*arg));
            lemma_writable_concat(lp + render(*arg), rp);
            lemma_writable_concat(c, paren(render(*arg)));
        },
        ExprModel::Pi => {
            assert(is_name(seq!['p', 'i'])) by {
                assert(seq!['p', 'i'][1] == 'i');
                assert(seq!['p', 'i'] != seq!['t']) by {
                    assert(seq!['p', 'i'].len() != seq!['t'].len());
                }
            }
        },
        ExprModel::Euler => {
            assert(is_name(seq!['e'])) by {
                assert(seq!['e'] != seq!['t']) by {
                    assert(seq!['e'][0] != seq!['t'][0]);
                }
            }
        },
        _ => {},
    }
}

/// Compiling the written text of a tree gives the tree back: what is
/// written is what is read.
pub proof fn lemma_compile_expr_text(e: ExprModel)
    requires
        text_ready(e),
    ensures
        compile_spec(expr_text(e)) == Ok::<ExprModel, ErrorModel>(e),
{
    lemma_render_writable(e);
    lemma_render_nonempty(e);
    lemma_compile_tokens_text(render(e));
    lemma_parse_tokens_render(e);
}

} // verus!
