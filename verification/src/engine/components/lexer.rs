//! Splitting the text of an expression into tokens.
use vstd::prelude::*;
use crate::engine::components::chars::{digit, ident_continue, is_digit, is_ident_continue, is_ident_start};
use crate::engine::components::expr::{ErrorModel, ExprError};
use crate::engine::components::token::{Token, TokenModel, tokens_view};

verus! {

/// The token that a one-character operator or parenthesis stands for.
pub open spec fn single_char_token(c: char) -> Option<TokenModel> {
    if c == '+' {
        Some(TokenModel::Plus)
    } else if c == '-' {
        Some(TokenModel::Minus)
    } else if c == '*' {
        Some(TokenModel::Star)
    } else if c == '/' {
        Some(TokenModel::Slash)
    } else if c == '^' {
        Some(TokenModel::Caret)
    } else if c == '(' {
        Some(TokenModel::LParen)
    } else if c == ')' {
        Some(TokenModel::RParen)
    } else {
        None
    }
}

pub open spec fn is_exponent_mark(c: char) -> bool {
    c == 'e' || c == 'E'
}

pub open spec fn is_sign(c: char) -> bool {
    c == '+' || c == '-'
}

/// Where a number that continues at `j` ends: digits and points are taken,
/// an exponent mark is taken together with one sign right after it.
pub open spec fn number_end(s: Seq<char>, j: int) -> int
    decreases s.len() - j,
{
    if j < 0 || j >= s.len() {
        j
    } else if is_digit(s[j]) || s[j] == '.' {
        number_end(s, j + 1)
    } else if is_exponent_mark(s[j]) {
        if j + 1 < s.len() && is_sign(s[j + 1]) {
            number_end(s, j + 2)
        } else {
            number_end(s, j + 1)
        }
    } else {
        j
    }
}

/// Where a name that continues at `j` ends.
pub open spec fn ident_end(s: Seq<char>, j: int) -> int
    decreases s.len() - j,
{
    if j < 0 || j >= s.len() {
        j
    } else if is_ident_continue(s[j]) {
        ident_end(s, j + 1)
    } else {
        j
    }
}

pub proof fn lemma_number_end_bounds(s: Seq<char>, j: int)
    requires
        0 <= j <= s.len(),
    ensures
        j <= number_end(s, j) <= s.len(),
    decreases s.len() - j,
{
    if j < s.len() {
        if is_digit(s[j]) || s[j] == '.' {
            lemma_number_end_bounds(s, j + 1);
        } else if is_exponent_mark(s[j]) {
            if j + 1 < s.len() && is_sign(s[j + 1]) {
                lemma_number_end_bounds(s, j + 2);
            } else {
                lemma_number_end_bounds(s, j + 1);
            }
        }
    }
}

pub proof fn lemma_ident_end_bounds(s: Seq<char>, j: int)
    requires
        0 <= j <= s.len(),
    ensures
        j <= ident_end(s, j) <= s.len(),
    decreases s.len() - j,
{
    if j < s.len() && is_ident_continue(s[j]) {
        lemma_ident_end_bounds(s, j + 1);
    }
}

/// The digits, points and at most one point, with at least one digit:
/// `Digit+ | Digit+ '.' Digit* | Digit* '.' Digit+`.
pub open spec fn is_decimal_mantissa(m: Seq<char>) -> bool {
    &&& forall|i: int| 0 <= i < m.len() ==> is_digit(#[trigger] m[i]) || m[i] == '.'
    &&& forall|i: int, j: int| 0 <= i < j < m.len() && m[i] == '.' ==> m[j] != '.'
    &&& exists|i: int| 0 <= i < m.len() && is_digit(#[trigger] m[i])
}

pub open spec fn all_digits(x: Seq<char>) -> bool {
    forall|i: int| 0 <= i < x.len() ==> is_digit(#[trigger] x[i])
}

/// What follows an exponent mark: an optional sign and at least one digit.
pub open spec fn is_exponent_digits(x: Seq<char>) -> bool {
    ||| x.len() > 0 && all_digits(x)
    ||| x.len() > 1 && is_sign(x[0]) && all_digits(x.skip(1))
}

/// The texts that `f64::from_str` accepts among those made of digits,
/// points, exponent marks and signs: a decimal number with an optional
/// exponent (`Number ::= Mantissa (('e' | 'E') Sign? Digit+)?`).
pub open spec fn is_float_literal(s: Seq<char>) -> bool {
    ||| is_decimal_mantissa(s)
    ||| exists|k: int|
        0 <= k < s.len() && is_exponent_mark(#[trigger] s[k]) && is_decimal_mantissa(s.take(k))
            && is_exponent_digits(s.skip(k + 1))
}

pub open spec fn prepend(t: TokenModel, r: Result<Seq<TokenModel>, ErrorModel>) -> Result<
    Seq<TokenModel>,
    ErrorModel,
> {
    match r {
        Ok(ts) => Ok(seq![t] + ts),
        Err(e) => Err(e),
    }
}

pub open spec fn prepend_all(
    ts: Seq<TokenModel>,
    r: Result<Seq<TokenModel>, ErrorModel>,
) -> Result<Seq<TokenModel>, ErrorModel> {
    match r {
        Ok(rest) => Ok(ts + rest),
        Err(e) => Err(e),
    }
}

/// The tokens of `s` from position `i` on, or the first error met from left
/// to right. Blanks and tabs separate tokens; `t` is the parameter and other
/// names are identifiers.
pub open spec fn lex_from(s: Seq<char>, i: int) -> Result<Seq<TokenModel>, ErrorModel>
    decreases s.len() - i,
{
    if i < 0 || i >= s.len() {
        Ok(seq![])
    } else {
        let c = s[i];
        if c == ' ' || c == '\t' {
            lex_from(s, i + 1)
        } else if single_char_token(c) is Some {
            prepend(single_char_token(c)->0, lex_from(s, i + 1))
        } else if is_digit(c) || c == '.' {
            let j = number_end(s, i);
            proof {
                lemma_number_end_bounds(s, i + 1);
            }
            let lit = s.subrange(i, j);
            if is_float_literal(lit) {
                prepend(TokenModel::Num(lit), lex_from(s, j))
            } else {
                Err(ErrorModel::InvalidNumber(lit))
            }
        } else if is_ident_start(c) {
            let j = ident_end(s, i);
            proof {
                lemma_ident_end_bounds(s, i + 1);
            }
            let name = s.subrange(i, j);
            if name == seq!['t'] {
                prepend(TokenModel::T, lex_from(s, j))
            } else {
                prepend(TokenModel::Ident(name), lex_from(s, j))
            }
        } else {
            Err(ErrorModel::UnexpectedChar(c))
        }
    }
}

/// The tokens of a whole text.
pub open spec fn lex(s: Seq<char>) -> Result<Seq<TokenModel>, ErrorModel> {
    lex_from(s, 0)
}

pub open spec fn tokens_result_view(r: Result<Vec<Token>, ExprError>) -> Result<
    Seq<TokenModel>,
    ErrorModel,
> {
    match r {
        Ok(ts) => Ok(tokens_view(ts@)),
        Err(e) => Err(e@),
    }
}

proof fn lemma_prepend_all_push(ts: Seq<TokenModel>, t: TokenModel, r: Result<Seq<TokenModel>, ErrorModel>)
    ensures
        prepend_all(ts, prepend(t, r)) == prepend_all(ts.push(t), r),
{
    if let Ok(rest) = r {
        assert(ts + (seq![t] + rest) =~= ts.push(t) + rest);
    }
}

/// The characters of a string slice.
fn chars_of(src: &str) -> (v: Vec<char>)
    ensures
        v@ == src@,
{
    let n = src.unicode_len();
    let mut v: Vec<char> = Vec::new();
    let mut i: usize = 0;
    while i < n
        invariant
            n == src@.len(),
            i <= n,
            v@ == src@.take(i as int),
        decreases n - i,
    {
        v.push(src.get_char(i));
        i = i + 1;
        assert(v@ =~= src@.take(i as int));
    }
    assert(src@.take(n as int) =~= src@);
    v
}

fn is_exponent_char(c: char) -> (r: bool)
    ensures
        r == is_exponent_mark(c),
{
    c == 'e' || c == 'E'
}

fn is_sign_char(c: char) -> (r: bool)
    ensures
        r == is_sign(c),
{
    c == '+' || c == '-'
}

/// Where the number starting at `i` ends.
fn scan_number(s: &Vec<char>, i: usize) -> (j: usize)
    requires
        i < s@.len(),
        is_digit(s@[i as int]) || s@[i as int] == '.',
    ensures
        j as int == number_end(s@, i as int),
        i < j <= s@.len(),
{
    let n = s.len();
    let mut j: usize = i + 1;
    proof {
        lemma_number_end_bounds(s@, j as int);
    }
    while j < n
        invariant
            n == s@.len(),
            i < j <= n,
            number_end(s@, i as int) == number_end(s@, j as int),
        ensures
            i < j <= n,
            number_end(s@, i as int) == number_end(s@, j as int),
            number_end(s@, j as int) == j as int,
        decreases n - j,
    {
        let c = s[j];
        if digit(c) || c == '.' {
            j = j + 1;
        } else if is_exponent_char(c) {
            if j + 1 < n && is_sign_char(s[j + 1]) {
                j = j + 2;
            } else {
                j = j + 1;
            }
        } else {
            break;
        }
    }
    proof {
        lemma_number_end_bounds(s@, j as int);
    }
    j
}

/// Where the name starting at `i` ends.
fn scan_ident(s: &Vec<char>, i: usize) -> (j: usize)
    requires
        i < s@.len(),
        is_ident_start(s@[i as int]),
    ensures
        j as int == ident_end(s@, i as int),
        i < j <= s@.len(),
{
    let n = s.len();
    let mut j: usize = i + 1;
    while j < n
        invariant
            n == s@.len(),
            i < j <= n,
            ident_end(s@, i as int) == ident_end(s@, j as int),
        ensures
            i < j <= n,
            ident_end(s@, i as int) == ident_end(s@, j as int),
            ident_end(s@, j as int) == j as int,
        decreases n - j,
    {
        if ident_continue(s[j]) {
            j = j + 1;
        } else {
            break;
        }
    }
    j
}


/// Whether `s[from..to]` is all digits.
fn digits_only(s: &Vec<char>, from: usize, to: usize) -> (r: bool)
    requires
        from <= to <= s@.len(),
    ensures
        r == all_digits(s@.subrange(from as int, to as int)),
{
    let mut i = from;
    while i < to
        invariant
            from <= i <= to <= s@.len(),
            forall|k: int| from <= k < i ==> is_digit(#[trigger] s@[k]),
        decreases to - i,
    {
        if !digit(s[i]) {
            assert(!is_digit(s@.subrange(from as int, to as int)[i - from]));
            return false;
        }
        i = i + 1;
    }
    assert forall|k: int| 0 <= k < to - from implies is_digit(
        #[trigger] s@.subrange(from as int, to as int)[k],
    ) by {
        assert(is_digit(s@[from + k]));
    }
    true
}

/// Whether the characters `s[start..end]` form a number literal.
fn float_literal(s: &Vec<char>, start: usize, end: usize) -> (r: bool)
    requires
        start <= end <= s@.len(),
    ensures
        r == is_float_literal(s@.subrange(start as int, end as int)),
{
    let ghost lit = s@.subrange(start as int, end as int);
    let len = end - start;
    let mut p: usize = 0;
    let mut seen_dot = false;
    let mut seen_digit = false;
    let mut dot_at: usize = 0;
    while p < len
        invariant
            len == end - start,
            start <= end <= s@.len(),
            lit == s@.subrange(start as int, end as int),
            lit.len() == len,
            p <= len,
            forall|k: int| 0 <= k < p ==> is_digit(#[trigger] lit[k]) || lit[k] == '.',
            seen_dot ==> dot_at < p && lit[dot_at as int] == '.',
            forall|k: int| 0 <= k < p && lit[k] == '.' ==> seen_dot && k == dot_at,
            seen_digit <==> exists|k: int| 0 <= k < p && is_digit(#[trigger] lit[k]),
        ensures
            p <= len,
            forall|k: int| 0 <= k < p ==> is_digit(#[trigger] lit[k]) || lit[k] == '.',
            seen_dot ==> dot_at < p && lit[dot_at as int] == '.',
            forall|k: int| 0 <= k < p && lit[k] == '.' ==> seen_dot && k == dot_at,
            seen_digit <==> exists|k: int| 0 <= k < p && is_digit(#[trigger] lit[k]),
            p < len ==> !(is_digit(lit[p as int]) || lit[p as int] == '.'),
        decreases len - p,
    {
        let c = s[start + p];
        assert(c == lit[p as int]);
        if digit(c) {
            seen_digit = true;
        } else if c == '.' {
            if seen_dot {
                proof {
                    assert(!is_decimal_mantissa(lit)) by {
                        assert(lit[dot_at as int] == '.' && lit[p as int] == '.');
                    }
                    assert forall|k: int|
                        0 <= k < lit.len() && is_exponent_mark(#[trigger] lit[k]) implies !(
                        is_decimal_mantissa(lit.take(k)) && is_exponent_digits(lit.skip(k + 1))) by {
                        if k <= p {
                            if k < p {
                                assert(is_digit(lit[k]) || lit[k] == '.');
                            }
                        } else {
                            assert(lit.take(k)[dot_at as int] == '.');
                            assert(lit.take(k)[p as int] == '.');
                        }
                    }
                }
                return false;
            }
            seen_dot = true;
            dot_at = p;
        } else {
            break;
        }
        p = p + 1;
    }
    if p == len {
        proof {
            assert forall|k: int|
                0 <= k < lit.len() && is_exponent_mark(#[trigger] lit[k]) implies false by {
                assert(is_digit(lit[k]) || lit[k] == '.');
            }
            if seen_digit {
                assert(is_decimal_mantissa(lit));
            } else {
                assert(!is_decimal_mantissa(lit));
            }
        }
        return seen_digit;
    }
    let c = s[start + p];
    assert(c == lit[p as int]);
    assert(!is_decimal_mantissa(lit)) by {
        assert(!(is_digit(lit[p as int]) || lit[p as int] == '.'));
    }
    proof {
        assert forall|k: int|
            0 <= k < lit.len() && is_exponent_mark(#[trigger] lit[k]) && k != p implies !is_decimal_mantissa(lit.take(k)) by {
            if k < p {
                assert(is_digit(lit[k]) || lit[k] == '.');
            } else {
                assert(lit.take(k)[p as int] == lit[p as int]);
            }
        }
    }
    if !is_exponent_char(c) || !seen_digit {
        proof {
            if is_exponent_mark(c) {
                assert(!is_decimal_mantissa(lit.take(p as int))) by {
                    assert forall|k: int| 0 <= k < p implies !is_digit(#[trigger] lit.take(p as int)[k]) by {
                        assert(lit.take(p as int)[k] == lit[k]);
                    }
                }
            }
        }
        return false;
    }
    let ghost m = lit.take(p as int);
    assert(is_decimal_mantissa(m)) by {
        let w = choose|k: int| 0 <= k < p && is_digit(#[trigger] lit[k]);
        assert(is_digit(m[w]));
        assert forall|i: int| 0 <= i < m.len() implies is_digit(#[trigger] m[i]) || m[i] == '.' by {
            assert(m[i] == lit[i]);
        }
        assert forall|i: int, j: int| 0 <= i < j < m.len() && m[i] == '.' implies m[j] != '.' by {
            assert(m[i] == lit[i]);
            assert(m[j] == lit[j]);
        }
    }
    let ghost x = lit.skip(p + 1);
    let mut q = p + 1;
    let signed = q < len && is_sign_char(s[start + q]);
    if signed {
        q = q + 1;
    }
    if q == len {
        proof {
            if signed {
                assert(x.len() == 1);
                assert(!is_digit(x[0]));
            } else {
                assert(x.len() == 0);
            }
            assert(!is_exponent_digits(x));
        }
        return false;
    }
    let r = digits_only(s, start + q, end);
    proof {
        let tail = s@.subrange((start + q) as int, end as int);
        if signed {
            assert(is_sign(x[0]));
            assert(x.skip(1) =~= tail);
            assert(!all_digits(x)) by {
                assert(!is_digit(x[0]));
            }
        } else {
            assert(x =~= tail);
            assert(!is_sign(x[0]));
        }
        assert(r == is_exponent_digits(x));
        if r {
            assert(is_exponent_mark(lit[p as int]) && is_decimal_mantissa(lit.take(p as int))
                && is_exponent_digits(lit.skip(p + 1)));
        }
    }
    r
}


/// The token that a one-character operator or parenthesis stands for.
fn single_char(c: char) -> (r: Option<Token>)
    ensures
        match r {
            Some(t) => single_char_token(c) == Some(t@),
            None => single_char_token(c) is None,
        },
{
    if c == '+' {
        Some(Token::Plus)
    } else if c == '-' {
        Some(Token::Minus)
    } else if c == '*' {
        Some(Token::Star)
    } else if c == '/' {
        Some(Token::Slash)
    } else if c == '^' {
        Some(Token::Caret)
    } else if c == '(' {
        Some(Token::LParen)
    } else if c == ')' {
        Some(Token::RParen)
    } else {
        None
    }
}

/// Splits the text of an expression into tokens, or reports the first
/// character or number literal, from the left, that no token can start.
pub fn tokenize(src: &str) -> (r: Result<Vec<Token>, ExprError>)
    ensures
        tokens_result_view(r) == lex(src@),
{
    let s = chars_of(src);
    let n = s.len();
    let mut tokens: Vec<Token> = Vec::new();
    let mut i: usize = 0;
    while i < n
        invariant
            n == s@.len(),
            s@ == src@,
            i <= n,
            lex(src@) == prepend_all(tokens_view(tokens@), lex_from(s@, i as int)),
        decreases n - i,
    {
        let ghost before = tokens_view(tokens@);
        let c = s[i];
        if c == ' ' || c == '\t' {
            i = i + 1;
        } else if let Some(tok) = single_char(c) {
            let ghost tm = tok@;
            tokens.push(tok);
            proof {
                lemma_prepend_all_push(before, tm, lex_from(s@, i + 1));
                assert(tokens_view(tokens@) =~= before.push(tm));
            }
            i = i + 1;
        } else if digit(c) || c == '.' {
            let j = scan_number(&s, i);
            let lit = src.substring_char(i, j).to_owned();
            assert(lit@ =~= s@.subrange(i as int, j as int));
            if !float_literal(&s, i, j) {
                return Err(ExprError::InvalidNumber(lit));
            }
            let tok = Token::Num(lit);
            let ghost tm = tok@;
            tokens.push(tok);
            proof {
                lemma_prepend_all_push(before, tm, lex_from(s@, j as int));
                assert(tokens_view(tokens@) =~= before.push(tm));
            }
            i = j;
        } else if crate::engine::components::chars::ident_start(c) {
            let j = scan_ident(&s, i);
            let tok = if j == i + 1 && c == 't' {
                assert(s@.subrange(i as int, j as int) =~= seq!['t']);
                Token::T
            } else {
                let name = src.substring_char(i, j).to_owned();
                assert(name@ =~= s@.subrange(i as int, j as int));
                assert(name@ != seq!['t']) by {
                    if name@ == seq!['t'] {
                        assert(name@.len() == 1);
                        assert(name@[0] == s@[i as int]);
                    }
                }
                Token::Ident(name)
            };
            let ghost tm = tok@;
            tokens.push(tok);
            proof {
                lemma_prepend_all_push(before, tm, lex_from(s@, j as int));
                assert(tokens_view(tokens@) =~= before.push(tm));
            }
            i = j;
        } else {
            return Err(ExprError::UnexpectedChar(c));
        }
    }
    assert(tokens_view(tokens@) + seq![] =~= tokens_view(tokens@));
    Ok(tokens)
}

} // verus!
