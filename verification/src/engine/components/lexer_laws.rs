//! Laws of the tokenizer.
use vstd::prelude::*;
use crate::engine::components::chars::is_ident_continue;
use crate::engine::components::expr::ErrorModel;
use crate::engine::components::lexer::{
    ident_end, lex, lex_from, number_end, prepend, prepend_all, is_float_literal, single_char_token,
    lemma_ident_end_bounds, lemma_number_end_bounds,
};
use crate::engine::components::token::TokenModel;

verus! {

/// Scanning inside `a` gives the same end in `a + " " + b`: the blank stops
/// every number and name.
proof fn lemma_scan_prefix(a: Seq<char>, b: Seq<char>, i: int)
    requires
        0 <= i <= a.len(),
    ensures
        number_end(a + seq![' '] + b, i) == number_end(a, i),
        ident_end(a + seq![' '] + b, i) == ident_end(a, i),
    decreases a.len() - i,
{
    let s = a + seq![' '] + b;
    assert(s[a.len() as int] == ' ');
    assert(!is_ident_continue(' '));
    if i < a.len() {
        assert(s[i] == a[i]);
        if i + 1 < a.len() {
            assert(s[i + 1] == a[i + 1]);
        }
        lemma_scan_prefix(a, b, i + 1);
        if i + 2 <= a.len() {
            lemma_scan_prefix(a, b, i + 2);
        }
    }
}

/// Scanning in the part `b` of `p + b` is scanning in `b`, shifted.
proof fn lemma_scan_suffix(p: Seq<char>, b: Seq<char>, k: int)
    requires
        0 <= k <= b.len(),
    ensures
        number_end(p + b, p.len() + k) == p.len() + number_end(b, k),
        ident_end(p + b, p.len() + k) == p.len() + ident_end(b, k),
    decreases b.len() - k,
{
    let s = p + b;
    if k < b.len() {
        assert(s[p.len() + k] == b[k]);
        if k + 1 < b.len() {
            assert(s[p.len() + k + 1] == b[k + 1]);
        }
        lemma_scan_suffix(p, b, k + 1);
        if k + 2 <= b.len() {
            lemma_scan_suffix(p, b, k + 2);
        }
    }
}

/// Tokenizing in the part `b` of `p + b` is tokenizing `b`.
proof fn lemma_lex_suffix(p: Seq<char>, b: Seq<char>, k: int)
    requires
        0 <= k <= b.len(),
    ensures
        lex_from(p + b, p.len() + k) == lex_from(b, k),
    decreases b.len() - k,
{
    let s = p + b;
    let i = p.len() + k;
    if k < b.len() {
        let c = b[k];
        assert(s[i] == c);
        lemma_scan_suffix(p, b, k);
        if c == ' ' || c == '\t' {
            lemma_lex_suffix(p, b, k + 1);
        } else if crate::engine::components::lexer::single_char_token(c) is Some {
            lemma_lex_suffix(p, b, k + 1);
        } else if crate::engine::components::chars::is_digit(c) || c == '.' {
            let j = number_end(b, k);
            lemma_number_end_bounds(b, k + 1);
            assert(s.subrange(i, p.len() + j) =~= b.subrange(k, j));
            lemma_lex_suffix(p, b, j);
        } else if crate::engine::components::chars::is_ident_start(c) {
            let j = ident_end(b, k);
            lemma_ident_end_bounds(b, k + 1);
            assert(s.subrange(i, p.len() + j) =~= b.subrange(k, j));
            lemma_lex_suffix(p, b, j);
        }
    }
}

/// What tokenizing `a` from `i` and then `b` gives.
pub open spec fn then_lex(r: Result<Seq<TokenModel>, ErrorModel>, b: Seq<char>) -> Result<
    Seq<TokenModel>,
    ErrorModel,
> {
    match r {
        Ok(ta) => prepend_all(ta, lex(b)),
        Err(e) => Err(e),
    }
}

proof fn lemma_then_lex_prepend(t: TokenModel, r: Result<Seq<TokenModel>, ErrorModel>, b: Seq<char>)
    ensures
        then_lex(prepend(t, r), b) == prepend(t, then_lex(r, b)),
{
    if let Ok(ta) = r {
        if let Ok(tb) = lex(b) {
            assert(seq![t] + ta + tb =~= seq![t] + (ta + tb));
        }
    }
}

proof fn lemma_lex_prefix(a: Seq<char>, b: Seq<char>, i: int)
    requires
        0 <= i <= a.len(),
    ensures
        lex_from(a + seq![' '] + b, i) == then_lex(lex_from(a, i), b),
    decreases a.len() - i,
{
    let s = a + seq![' '] + b;
    let p = a + seq![' '];
    assert(s == p + b);
    if i == a.len() {
        assert(s[i] == ' ');
        lemma_lex_suffix(p, b, 0);
        assert(lex_from(s, i + 1) == lex_from(b, 0));
        if let Ok(tb) = lex(b) {
            assert(seq![] + tb =~= tb);
        }
    } else {
        let c = a[i];
        assert(s[i] == c);
        lemma_scan_prefix(a, b, i);
        if c == ' ' || c == '\t' {
            lemma_lex_prefix(a, b, i + 1);
        } else if crate::engine::components::lexer::single_char_token(c) is Some {
            lemma_lex_prefix(a, b, i + 1);
            lemma_then_lex_prepend(
                crate::engine::components::lexer::single_char_token(c)->0,
                lex_from(a, i + 1),
                b,
            );
        } else if crate::engine::components::chars::is_digit(c) || c == '.' {
            let j = number_end(a, i);
            lemma_number_end_bounds(a, i + 1);
            assert(s.subrange(i, j) =~= a.subrange(i, j));
            lemma_lex_prefix(a, b, j);
            lemma_then_lex_prepend(TokenModel::Num(a.subrange(i, j)), lex_from(a, j), b);
        } else if crate::engine::components::chars::is_ident_start(c) {
            let j = ident_end(a, i);
            lemma_ident_end_bounds(a, i + 1);
            assert(s.subrange(i, j) =~= a.subrange(i, j));
            lemma_lex_prefix(a, b, j);
            lemma_then_lex_prepend(TokenModel::T, lex_from(a, j), b);
            lemma_then_lex_prepend(TokenModel::Ident(a.subrange(i, j)), lex_from(a, j), b);
        }
    }
}

/// Texts joined by a blank tokenize as the tokens of the first followed by
/// the tokens of the second; an error in the first text is the error of the
/// whole, and otherwise an error in the second is.
pub proof fn lemma_lex_join(a: Seq<char>, b: Seq<char>)
    ensures
        lex(a + seq![' '] + b) == then_lex(lex(a), b),
{
    lemma_lex_prefix(a, b, 0);
}

/// The digits and points of a decimal number: `a`, or `a.b` when `point`.
pub open spec fn mantissa_text(a: Seq<char>, point: bool, b: Seq<char>) -> Seq<char> {
    if point {
        a + seq!['.'] + b
    } else {
        a
    }
}

/// Whether every character of `x` is a decimal digit.
pub open spec fn decimal_digits(x: Seq<char>) -> bool {
    forall|i: int| 0 <= i < x.len() ==> '0' <= #[trigger] x[i] && x[i] <= '9'
}

/// Scanning a number over characters that are all digits or points runs to
/// the end.
proof fn lemma_number_end_plain(s: Seq<char>, i: int)
    requires
        0 <= i <= s.len(),
        forall|k: int| i <= k < s.len() ==> ('0' <= #[trigger] s[k] && s[k] <= '9') || s[k] == '.',
    ensures
        number_end(s, i) == s.len(),
    decreases s.len() - i,
{
    if i < s.len() {
        lemma_number_end_plain(s, i + 1);
    }
}

/// Scanning a number over digits and points reaches position `k`.
proof fn lemma_number_end_reaches(s: Seq<char>, i: int, k: int)
    requires
        0 <= i <= k <= s.len(),
        forall|x: int| i <= x < k ==> ('0' <= #[trigger] s[x] && s[x] <= '9') || s[x] == '.',
    ensures
        number_end(s, i) == number_end(s, k),
    decreases k - i,
{
    if i < k {
        lemma_number_end_reaches(s, i + 1, k);
    }
}

/// A decimal number, with or without an exponent of any length and sign, is
/// one number token: `Digits`, `Digits.Digits`, `.Digits` or `Digits.`,
/// then optionally `e` or `E`, an optional `+` or `-`, and digits.
pub proof fn lemma_number_literal(
    a: Seq<char>,
    point: bool,
    b: Seq<char>,
    mark: char,
    sign: Seq<char>,
    d: Seq<char>,
)
    requires
        decimal_digits(a),
        decimal_digits(b),
        a.len() > 0 || (point && b.len() > 0),
        mark == 'e' || mark == 'E',
        sign == Seq::<char>::empty() || sign == seq!['+'] || sign == seq!['-'],
        decimal_digits(d),
        d.len() > 0,
    ensures
        is_float_literal(mantissa_text(a, point, b)),
        is_float_literal(mantissa_text(a, point, b) + seq![mark] + sign + d),
        lex(mantissa_text(a, point, b)) == Ok::<Seq<TokenModel>, ErrorModel>(
            seq![TokenModel::Num(mantissa_text(a, point, b))],
        ),
        lex(mantissa_text(a, point, b) + seq![mark] + sign + d) == Ok::<Seq<TokenModel>, ErrorModel>(
            seq![TokenModel::Num(mantissa_text(a, point, b) + seq![mark] + sign + d)],
        ),
{
    let m = mantissa_text(a, point, b);
    let x = sign + d;
    let s = m + seq![mark] + x;
    assert(s =~= m + seq![mark] + sign + d);
    let k = m.len() as int;
    assert forall|i: int| 0 <= i < m.len() implies ('0' <= #[trigger] m[i] && m[i] <= '9') || m[i]
        == '.' by {
        if point && i > a.len() {
            assert(m[i] == b[i - a.len() - 1]);
        }
    }
    assert forall|i: int, j: int| 0 <= i < j < m.len() && m[i] == '.' implies m[j] != '.' by {
        if point {
            assert(i == a.len());
            assert(m[j] == b[j - a.len() - 1]);
        }
    }
    let w: int = if a.len() > 0 { 0int } else { a.len() + 1int };
    assert(0 <= w < m.len() && '0' <= m[w] && m[w] <= '9');
    assert(is_float_literal(m));
    assert(s.take(k) =~= m);
    assert(s.skip(k + 1) =~= x);
    assert(s[k] == mark);
    if sign.len() > 0 {
        assert(x.skip(1) =~= d);
    } else {
        assert(x =~= d);
    }
    assert(is_float_literal(s));
    // the scan of the number runs over the mantissa, the mark and its sign,
    // and the digits, to the end
    assert forall|i: int| 0 <= i < k implies ('0' <= #[trigger] s[i] && s[i] <= '9') || s[i] == '.' by {
        assert(s[i] == m[i]);
    }
    assert forall|i: int| k + 1 + sign.len() <= i < s.len() implies ('0' <= #[trigger] s[i] && s[i]
        <= '9') || s[i] == '.' by {
        assert(s[i] == d[i - k - 1 - sign.len()]);
    }
    lemma_number_end_plain(s, k + 1 + sign.len());
    lemma_number_end_reaches(s, 0, k);
    if sign.len() > 0 {
        assert(s[k + 1] == sign[0]);
    } else {
        assert(s[k + 1] == d[0]);
    }
    assert(number_end(s, 0) == s.len());
    assert(s[0] == m[0]);
    assert(single_char_token(s[0]) is None);
    assert(s.subrange(0, s.len() as int) =~= s);
    assert(lex_from(s, s.len() as int) == Ok::<Seq<TokenModel>, ErrorModel>(seq![]));
    assert(seq![TokenModel::Num(s)] + Seq::<TokenModel>::empty() =~= seq![TokenModel::Num(s)]);
    assert(s[0] != ' ' && s[0] != '\t');
    assert(lex_from(s, 0) == prepend(TokenModel::Num(s.subrange(0, number_end(s, 0))), lex_from(s, number_end(s, 0))));
    assert(lex_from(s, 0) == prepend(TokenModel::Num(s), lex_from(s, s.len() as int)));
    // and without an exponent, over the mantissa alone
    lemma_number_end_plain(m, 0);
    assert(single_char_token(m[0]) is None);
    assert(m.subrange(0, m.len() as int) =~= m);
    assert(lex_from(m, m.len() as int) == Ok::<Seq<TokenModel>, ErrorModel>(seq![]));
    assert(seq![TokenModel::Num(m)] + Seq::<TokenModel>::empty() =~= seq![TokenModel::Num(m)]);
    assert(m[0] != ' ' && m[0] != '\t');
    assert(lex_from(m, 0) == prepend(TokenModel::Num(m), lex_from(m, m.len() as int)));
}

proof fn lemma_ident_end_whole(s: Seq<char>, i: int)
    requires
        0 <= i <= s.len(),
        forall|k: int| i <= k < s.len() ==> is_ident_continue(#[trigger] s[k]),
    ensures
        ident_end(s, i) == s.len(),
    decreases s.len() - i,
{
    if i < s.len() {
        lemma_ident_end_whole(s, i + 1);
    }
}

/// A name, an ASCII letter or `_` followed by letters, digits and `_`, is one
/// token: the parameter when it is `t`, an identifier otherwise.
pub proof fn lemma_name_literal(name: Seq<char>)
    requires
        name.len() > 0,
        ('a' <= name[0] && name[0] <= 'z') || ('A' <= name[0] && name[0] <= 'Z') || name[0] == '_',
        forall|k: int| 1 <= k < name.len() ==> is_ident_continue(#[trigger] name[k]),
    ensures
        name == seq!['t'] ==> lex(name) == Ok::<Seq<TokenModel>, ErrorModel>(seq![TokenModel::T]),
        name != seq!['t'] ==> lex(name) == Ok::<Seq<TokenModel>, ErrorModel>(seq![TokenModel::Ident(name)]),
{
    lemma_ident_end_whole(name, 1);
    assert(single_char_token(name[0]) is None);
    assert(name.subrange(0, name.len() as int) =~= name);
    assert(lex_from(name, name.len() as int) == Ok::<Seq<TokenModel>, ErrorModel>(seq![]));
    assert(seq![TokenModel::T] + Seq::<TokenModel>::empty() =~= seq![TokenModel::T]);
    assert(seq![TokenModel::Ident(name)] + Seq::<TokenModel>::empty() =~= seq![TokenModel::Ident(name)]);
}

} // verus!
