//! Laws of operator precedence and associativity.
use vstd::prelude::*;
use crate::engine::components::expr::{BinaryOp, ExprModel};
use crate::engine::components::expr::ErrorModel;
use crate::engine::components::curve::compile_spec;
use crate::engine::components::laws::{
    calls_well_named, lemma_compile_tokens_text, lemma_lift_atom, lemma_lift_unary, lemma_parse_group,
    lemma_render_writable, lemma_writable_concat, occurs_at, ok_at, op_token, paren, render,
    text_ready, tokens_text, writable,
};
use crate::engine::components::parser::{
    add_sub_rest, bin, mul_div_rest, parse_add_sub_at, parse_atom_at, parse_expr_at,
    parse_mul_div_at, parse_pow_at, parse_tokens, parse_unary_at, tok_is,
};
use crate::engine::components::token::TokenModel;

verus! {

/// How tightly an operator binds.
pub open spec fn precedence(op: BinaryOp) -> int {
    match op {
        BinaryOp::Add | BinaryOp::Sub => 1,
        BinaryOp::Mul | BinaryOp::Div => 2,
        BinaryOp::Pow => 3,
    }
}

/// The tree of `a o1 b o2 c`: the tighter operator groups first; between
/// equally tight operators the left one does, except for `^`, which groups
/// from the right.
pub open spec fn grouping(o1: BinaryOp, o2: BinaryOp, a: ExprModel, b: ExprModel, c: ExprModel) -> ExprModel {
    if precedence(o2) > precedence(o1) || (o1 == BinaryOp::Pow && o2 == BinaryOp::Pow) {
        bin(o1, a, bin(o2, b, c))
    } else {
        bin(o2, bin(o1, a, b), c)
    }
}

/// Three parenthesised operands, the first ending at `a1` and the second at
/// `b1`, with the operators `o1` and `o2` between them.
pub open spec fn three_groups(
    toks: Seq<TokenModel>,
    a1: int,
    b1: int,
    o1: BinaryOp,
    o2: BinaryOp,
    a: ExprModel,
    b: ExprModel,
    c: ExprModel,
) -> bool {
    &&& 0 < a1
    &&& a1 + 1 < b1
    &&& b1 + 1 < toks.len()
    &&& tok_is(toks, 0, TokenModel::LParen)
    &&& tok_is(toks, a1, op_token(o1))
    &&& tok_is(toks, a1 + 1, TokenModel::LParen)
    &&& tok_is(toks, b1, op_token(o2))
    &&& tok_is(toks, b1 + 1, TokenModel::LParen)
    &&& parse_atom_at(toks, 0) == ok_at((a, a1))
    &&& parse_atom_at(toks, a1 + 1) == ok_at((b, b1))
    &&& parse_atom_at(toks, b1 + 1) == ok_at((c, toks.len() as int))
}

pub open spec fn additive(op: BinaryOp) -> bool {
    op == BinaryOp::Add || op == BinaryOp::Sub
}

pub open spec fn multiplicative(op: BinaryOp) -> bool {
    op == BinaryOp::Mul || op == BinaryOp::Div
}

/// The last operand, a group at the end of the tokens, as each kind of operand.
proof fn lemma_last_group(toks: Seq<TokenModel>, q: int, c: ExprModel)
    requires
        0 <= q < toks.len(),
        tok_is(toks, q, TokenModel::LParen),
        parse_atom_at(toks, q) == ok_at((c, toks.len() as int)),
    ensures
        parse_pow_at(toks, q) == ok_at((c, toks.len() as int)),
        parse_unary_at(toks, q) == ok_at((c, toks.len() as int)),
        parse_mul_div_at(toks, q) == ok_at((c, toks.len() as int)),
{
    let l = toks.len() as int;
    lemma_lift_atom(toks, q, c, l);
    assert(mul_div_rest(toks, c, l) == ok_at((c, l)));
}

/// A group followed by an operator other than `^`, as a unary operand.
proof fn lemma_inner_group(toks: Seq<TokenModel>, q: int, x: ExprModel, r: int)
    requires
        0 <= q < r < toks.len(),
        tok_is(toks, q, TokenModel::LParen),
        !tok_is(toks, r, TokenModel::Caret),
        parse_atom_at(toks, q) == ok_at((x, r)),
    ensures
        parse_pow_at(toks, q) == ok_at((x, r)),
        parse_unary_at(toks, q) == ok_at((x, r)),
{
    lemma_lift_atom(toks, q, x, r);
}

proof fn lemma_grouping_pow_first(
    toks: Seq<TokenModel>,
    a1: int,
    b1: int,
    o1: BinaryOp,
    o2: BinaryOp,
    a: ExprModel,
    b: ExprModel,
    c: ExprModel,
)
    requires
        three_groups(toks, a1, b1, o1, o2, a, b, c),
        o1 == BinaryOp::Pow,
    ensures
        parse_expr_at(toks, 0) == ok_at((grouping(o1, o2, a, b, c), toks.len() as int)),
{
    let l = toks.len() as int;
    lemma_last_group(toks, b1 + 1, c);
    if o2 == BinaryOp::Pow {
        assert(parse_pow_at(toks, a1 + 1) == ok_at((bin(o2, b, c), l)));
        assert(parse_unary_at(toks, a1 + 1) == ok_at((bin(o2, b, c), l)));
        let e = bin(o1, a, bin(o2, b, c));
        assert(parse_pow_at(toks, 0) == ok_at((e, l)));
        assert(parse_unary_at(toks, 0) == ok_at((e, l)));
        lemma_lift_unary(toks, 0, e, l);
    } else {
        lemma_inner_group(toks, a1 + 1, b, b1);
        let ab = bin(o1, a, b);
        assert(parse_pow_at(toks, 0) == ok_at((ab, b1)));
        assert(parse_unary_at(toks, 0) == ok_at((ab, b1)));
        let e = bin(o2, ab, c);
        assert(add_sub_rest(toks, e, l) == ok_at((e, l)));
        assert(mul_div_rest(toks, e, l) == ok_at((e, l)));
        if multiplicative(o2) {
            assert(mul_div_rest(toks, ab, b1) == ok_at((e, l)));
            assert(parse_mul_div_at(toks, 0) == ok_at((e, l)));
        } else {
            assert(mul_div_rest(toks, ab, b1) == ok_at((ab, b1)));
            assert(parse_mul_div_at(toks, 0) == ok_at((ab, b1)));
            assert(add_sub_rest(toks, ab, b1) == ok_at((e, l)));
        }
        assert(parse_add_sub_at(toks, 0) == ok_at((e, l)));
    }
}

proof fn lemma_grouping_mul_first(
    toks: Seq<TokenModel>,
    a1: int,
    b1: int,
    o1: BinaryOp,
    o2: BinaryOp,
    a: ExprModel,
    b: ExprModel,
    c: ExprModel,
)
    requires
        three_groups(toks, a1, b1, o1, o2, a, b, c),
        multiplicative(o1),
    ensures
        parse_expr_at(toks, 0) == ok_at((grouping(o1, o2, a, b, c), toks.len() as int)),
{
    let l = toks.len() as int;
    lemma_last_group(toks, b1 + 1, c);
    lemma_inner_group(toks, 0, a, a1);
    if o2 == BinaryOp::Pow {
        let bc = bin(o2, b, c);
        assert(parse_pow_at(toks, a1 + 1) == ok_at((bc, l)));
        assert(parse_unary_at(toks, a1 + 1) == ok_at((bc, l)));
        let e = bin(o1, a, bc);
        assert(mul_div_rest(toks, e, l) == ok_at((e, l)));
        assert(mul_div_rest(toks, a, a1) == ok_at((e, l)));
        assert(parse_mul_div_at(toks, 0) == ok_at((e, l)));
        assert(add_sub_rest(toks, e, l) == ok_at((e, l)));
        assert(parse_add_sub_at(toks, 0) == ok_at((e, l)));
    } else {
        lemma_inner_group(toks, a1 + 1, b, b1);
        let ab = bin(o1, a, b);
        let e = bin(o2, ab, c);
        assert(mul_div_rest(toks, e, l) == ok_at((e, l)));
        assert(add_sub_rest(toks, e, l) == ok_at((e, l)));
        if multiplicative(o2) {
            assert(mul_div_rest(toks, ab, b1) == ok_at((e, l)));
            assert(mul_div_rest(toks, a, a1) == ok_at((e, l)));
            assert(parse_mul_div_at(toks, 0) == ok_at((e, l)));
        } else {
            assert(mul_div_rest(toks, ab, b1) == ok_at((ab, b1)));
            assert(mul_div_rest(toks, a, a1) == ok_at((ab, b1)));
            assert(parse_mul_div_at(toks, 0) == ok_at((ab, b1)));
            assert(add_sub_rest(toks, ab, b1) == ok_at((e, l)));
        }
        assert(parse_add_sub_at(toks, 0) == ok_at((e, l)));
    }
}

proof fn lemma_grouping_add_first(
    toks: Seq<TokenModel>,
    a1: int,
    b1: int,
    o1: BinaryOp,
    o2: BinaryOp,
    a: ExprModel,
    b: ExprModel,
    c: ExprModel,
)
    requires
        three_groups(toks, a1, b1, o1, o2, a, b, c),
        additive(o1),
    ensures
        parse_expr_at(toks, 0) == ok_at((grouping(o1, o2, a, b, c), toks.len() as int)),
{
    let l = toks.len() as int;
    lemma_last_group(toks, b1 + 1, c);
    lemma_inner_group(toks, 0, a, a1);
    assert(mul_div_rest(toks, a, a1) == ok_at((a, a1)));
    assert(parse_mul_div_at(toks, 0) == ok_at((a, a1)));
    if o2 == BinaryOp::Pow {
        let bc = bin(o2, b, c);
        assert(parse_pow_at(toks, a1 + 1) == ok_at((bc, l)));
        assert(parse_unary_at(toks, a1 + 1) == ok_at((bc, l)));
        assert(mul_div_rest(toks, bc, l) == ok_at((bc, l)));
        assert(parse_mul_div_at(toks, a1 + 1) == ok_at((bc, l)));
        let e = bin(o1, a, bc);
        assert(add_sub_rest(toks, e, l) == ok_at((e, l)));
        assert(add_sub_rest(toks, a, a1) == ok_at((e, l)));
    } else if multiplicative(o2) {
        lemma_inner_group(toks, a1 + 1, b, b1);
        let bc = bin(o2, b, c);
        assert(mul_div_rest(toks, bc, l) == ok_at((bc, l)));
        assert(mul_div_rest(toks, b, b1) == ok_at((bc, l)));
        assert(parse_mul_div_at(toks, a1 + 1) == ok_at((bc, l)));
        let e = bin(o1, a, bc);
        assert(add_sub_rest(toks, e, l) == ok_at((e, l)));
        assert(add_sub_rest(toks, a, a1) == ok_at((e, l)));
    } else {
        lemma_inner_group(toks, a1 + 1, b, b1);
        assert(mul_div_rest(toks, b, b1) == ok_at((b, b1)));
        assert(parse_mul_div_at(toks, a1 + 1) == ok_at((b, b1)));
        let ab = bin(o1, a, b);
        let e = bin(o2, ab, c);
        assert(add_sub_rest(toks, e, l) == ok_at((e, l)));
        assert(add_sub_rest(toks, ab, b1) == ok_at((e, l)));
        assert(add_sub_rest(toks, a, a1) == ok_at((e, l)));
    }
    assert(parse_add_sub_at(toks, 0) == ok_at((grouping(o1, o2, a, b, c), l)));
}


/// The tokens of `(a) o1 (b) o2 (c)`.
pub open spec fn three_operands(o1: BinaryOp, o2: BinaryOp, a: ExprModel, b: ExprModel, c: ExprModel) -> Seq<TokenModel> {
    paren(render(a)) + seq![op_token(o1)] + paren(render(b)) + seq![op_token(o2)] + paren(render(c))
}

/// `ts` stands in `toks` at `p`, read off a concatenation.
proof fn lemma_occurs_in(toks: Seq<TokenModel>, p: int, ts: Seq<TokenModel>)
    requires
        0 <= p,
        p + ts.len() <= toks.len(),
        toks.subrange(p, p + ts.len()) == ts,
    ensures
        occurs_at(toks, p, ts),
{
    assert forall|k: int| 0 <= k < ts.len() implies toks[p + k] == #[trigger] ts[k] by {
        assert(toks.subrange(p, p + ts.len())[k] == toks[p + k]);
    }
}

/// A parenthesised operand placed between `pre` and `post` is an atom.
proof fn lemma_group_in(toks: Seq<TokenModel>, pre: Seq<TokenModel>, x: ExprModel, post: Seq<TokenModel>)
    requires
        calls_well_named(x),
        toks == pre + paren(render(x)) + post,
    ensures
        tok_is(toks, pre.len() as int, TokenModel::LParen),
        parse_atom_at(toks, pre.len() as int) == ok_at(
            (x, (pre.len() + paren(render(x)).len()) as int),
        ),
{
    let g = paren(render(x));
    let p = pre.len() as int;
    assert(toks.subrange(p, p + g.len()) =~= g);
    lemma_occurs_in(toks, p, g);
    lemma_parse_group(toks, p, x);
    assert(toks[p + 0] == g[0]);
}

/// The layout of `(a) o1 (b) o2 (c)`: three groups parsed as atoms.
proof fn lemma_three_operands_layout(o1: BinaryOp, o2: BinaryOp, a: ExprModel, b: ExprModel, c: ExprModel)
    requires
        calls_well_named(a),
        calls_well_named(b),
        calls_well_named(c),
    ensures
        three_groups(
            three_operands(o1, o2, a, b, c),
            paren(render(a)).len() as int,
            (paren(render(a)).len() + 1 + paren(render(b)).len()) as int,
            o1,
            o2,
            a,
            b,
            c,
        ),
{
    let ga = paren(render(a));
    let gb = paren(render(b));
    let gc = paren(render(c));
    let t1 = seq![op_token(o1)];
    let t2 = seq![op_token(o2)];
    let toks = three_operands(o1, o2, a, b, c);
    let a1 = ga.len() as int;
    let b1 = a1 + 1 + gb.len();
    assert(toks =~= seq![] + ga + (t1 + gb + t2 + gc));
    lemma_group_in(toks, seq![], a, t1 + gb + t2 + gc);
    assert(toks =~= (ga + t1) + gb + (t2 + gc));
    lemma_group_in(toks, ga + t1, b, t2 + gc);
    assert(toks =~= (ga + t1 + gb + t2) + gc + seq![]);
    lemma_group_in(toks, ga + t1 + gb + t2, c, seq![]);
    assert(toks[a1] == (ga + t1)[a1]);
    assert(toks[b1] == (ga + t1 + gb + t2)[b1]);
}

/// Operators group by precedence: `^` before `*` and `/`, those before `+`
/// and `-`; equally tight operators group from the left, except `^`, which
/// groups from the right.
pub proof fn lemma_parse_grouping(o1: BinaryOp, o2: BinaryOp, a: ExprModel, b: ExprModel, c: ExprModel)
    requires
        calls_well_named(a),
        calls_well_named(b),
        calls_well_named(c),
    ensures
        parse_tokens(three_operands(o1, o2, a, b, c)) == Ok::<ExprModel, ErrorModel>(
            grouping(o1, o2, a, b, c),
        ),
{
    let toks = three_operands(o1, o2, a, b, c);
    let a1 = paren(render(a)).len() as int;
    let b1 = a1 + 1 + paren(render(b)).len();
    lemma_three_operands_layout(o1, o2, a, b, c);
    if o1 == BinaryOp::Pow {
        lemma_grouping_pow_first(toks, a1, b1, o1, o2, a, b, c);
    } else if multiplicative(o1) {
        lemma_grouping_mul_first(toks, a1, b1, o1, o2, a, b, c);
    } else {
        lemma_grouping_add_first(toks, a1, b1, o1, o2, a, b, c);
    }
}

/// Every token of `(a) o1 (b) o2 (c)` reads back as itself.
proof fn lemma_three_operands_writable(o1: BinaryOp, o2: BinaryOp, a: ExprModel, b: ExprModel, c: ExprModel)
    requires
        text_ready(a),
        text_ready(b),
        text_ready(c),
    ensures
        forall|k: int|
            0 <= k < three_operands(o1, o2, a, b, c).len() ==> writable(
                #[trigger] three_operands(o1, o2, a, b, c)[k],
            ),
{
    lemma_render_writable(a);
    lemma_render_writable(b);
    lemma_render_writable(c);
    let lp = seq![TokenModel::LParen];
    let rp = seq![TokenModel::RParen];
    let t1 = seq![op_token(o1)];
    let t2 = seq![op_token(o2)];
    assert(writable(lp[0]) && writable(rp[0]) && writable(t1[0]) && writable(t2[0]));
    lemma_writable_concat(lp, render(a));
    lemma_writable_concat(lp + render(a), rp);
    lemma_writable_concat(lp, render(b));
    lemma_writable_concat(lp + render(b), rp);
    lemma_writable_concat(lp, render(c));
    lemma_writable_concat(lp + render(c), rp);
    lemma_writable_concat(paren(render(a)), t1);
    lemma_writable_concat(paren(render(a)) + t1, paren(render(b)));
    lemma_writable_concat(paren(render(a)) + t1 + paren(render(b)), t2);
    lemma_writable_concat(paren(render(a)) + t1 + paren(render(b)) + t2, paren(render(c)));
}

/// The grouping law on text: the text `( a ) o1 ( b ) o2 ( c )` compiles to
/// the tree that precedence and associativity give.
pub proof fn lemma_compile_grouping(o1: BinaryOp, o2: BinaryOp, a: ExprModel, b: ExprModel, c: ExprModel)
    requires
        text_ready(a),
        text_ready(b),
        text_ready(c),
    ensures
        compile_spec(tokens_text(three_operands(o1, o2, a, b, c))) == Ok::<ExprModel, ErrorModel>(
            grouping(o1, o2, a, b, c),
        ),
{
    lemma_three_operands_writable(o1, o2, a, b, c);
    lemma_compile_tokens_text(three_operands(o1, o2, a, b, c));
    lemma_render_writable(a);
    lemma_render_writable(b);
    lemma_render_writable(c);
    lemma_parse_grouping(o1, o2, a, b, c);
}

/// The tokens of `- (a) o (b)`.
pub open spec fn negated_operands(o: BinaryOp, a: ExprModel, b: ExprModel) -> Seq<TokenModel> {
    seq![TokenModel::Minus] + paren(render(a)) + seq![op_token(o)] + paren(render(b))
}

pub open spec fn neg(x: ExprModel) -> ExprModel {
    ExprModel::UnaryMinus(Box::new(x))
}

/// The tree of `- a o b`: a leading minus binds tighter than every operator
/// but `^`.
pub open spec fn negation_grouping(o: BinaryOp, a: ExprModel, b: ExprModel) -> ExprModel {
    if o == BinaryOp::Pow {
        neg(bin(o, a, b))
    } else {
        bin(o, neg(a), b)
    }
}

/// A leading minus applies to the first operand alone, except before `^`,
/// where it applies to the whole power.
pub proof fn lemma_parse_negation(o: BinaryOp, a: ExprModel, b: ExprModel)
    requires
        calls_well_named(a),
        calls_well_named(b),
    ensures
        parse_tokens(negated_operands(o, a, b)) == Ok::<ExprModel, ErrorModel>(
            negation_grouping(o, a, b),
        ),
{
    let ga = paren(render(a));
    let gb = paren(render(b));
    let m = seq![TokenModel::Minus];
    let t = seq![op_token(o)];
    let toks = negated_operands(o, a, b);
    let a1 = (1 + ga.len()) as int;
    let l = toks.len() as int;
    assert(toks =~= m + ga + (t + gb));
    lemma_group_in(toks, m, a, t + gb);
    assert(toks =~= (m + ga + t) + gb + seq![]);
    lemma_group_in(toks, m + ga + t, b, seq![]);
    assert(toks[0] == m[0]);
    assert(toks[a1] == (m + ga + t)[a1]);
    lemma_last_group(toks, a1 + 1, b);
    if o == BinaryOp::Pow {
        let e = bin(o, a, b);
        assert(parse_pow_at(toks, 1) == ok_at((e, l)));
        assert(parse_unary_at(toks, 1) == ok_at((e, l)));
        assert(parse_unary_at(toks, 0) == ok_at((neg(e), l)));
        lemma_lift_unary(toks, 0, neg(e), l);
    } else {
        lemma_inner_group(toks, 1, a, a1);
        assert(parse_unary_at(toks, 0) == ok_at((neg(a), a1)));
        let e = bin(o, neg(a), b);
        assert(mul_div_rest(toks, e, l) == ok_at((e, l)));
        assert(add_sub_rest(toks, e, l) == ok_at((e, l)));
        if multiplicative(o) {
            assert(mul_div_rest(toks, neg(a), a1) == ok_at((e, l)));
            assert(parse_mul_div_at(toks, 0) == ok_at((e, l)));
        } else {
            assert(mul_div_rest(toks, neg(a), a1) == ok_at((neg(a), a1)));
            assert(parse_mul_div_at(toks, 0) == ok_at((neg(a), a1)));
            assert(add_sub_rest(toks, neg(a), a1) == ok_at((e, l)));
        }
        assert(parse_add_sub_at(toks, 0) == ok_at((e, l)));
    }
}


/// The negation law on text: `- ( a ) o ( b )` compiles to the tree that
/// the binding of a leading minus gives.
pub proof fn lemma_compile_negation(o: BinaryOp, a: ExprModel, b: ExprModel)
    requires
        text_ready(a),
        text_ready(b),
    ensures
        compile_spec(tokens_text(negated_operands(o, a, b))) == Ok::<ExprModel, ErrorModel>(
            negation_grouping(o, a, b),
        ),
{
    lemma_render_writable(a);
    lemma_render_writable(b);
    let lp = seq![TokenModel::LParen];
    let rp = seq![TokenModel::RParen];
    let m = seq![TokenModel::Minus];
    let t = seq![op_token(o)];
    assert(writable(lp[0]) && writable(rp[0]) && writable(m[0]) && writable(t[0]));
    lemma_writable_concat(lp, render(a));
    lemma_writable_concat(lp + render(a), rp);
    lemma_writable_concat(lp, render(b));
    lemma_writable_concat(lp + render(b), rp);
    lemma_writable_concat(m, paren(render(a)));
    lemma_writable_concat(m + paren(render(a)), t);
    lemma_writable_concat(m + paren(render(a)) + t, paren(render(b)));
    lemma_compile_tokens_text(negated_operands(o, a, b));
    lemma_parse_negation(o, a, b);
}

} // verus!
