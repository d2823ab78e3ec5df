//! Character classes used by the expression tokenizer.
use vstd::prelude::*;

verus! {

pub open spec fn is_digit(c: char) -> bool {
    '0' <= c && c <= '9'
}

pub open spec fn is_ascii(c: char) -> bool {
    (c as u32) < 128
}

pub open spec fn is_ascii_letter(c: char) -> bool {
    ('a' <= c && c <= 'z') || ('A' <= c && c <= 'Z')
}

/// First character of a name: an ASCII letter or `_`.
pub open spec fn is_ident_start(c: char) -> bool {
    is_ascii_letter(c) || c == '_'
}

/// What `char::is_alphanumeric` answers for a character outside ASCII
/// (the Unicode Alphabetic property or a numeric general category).
pub uninterp spec fn unicode_alphanumeric(c: char) -> bool;

/// The characters outside ASCII that have the Unicode White_Space property:
/// next line, no-break space, ogham space mark, the spaces from en quad to
/// hair space, line and paragraph separators, narrow no-break space, medium
/// mathematical space and ideographic space.
pub open spec fn unicode_whitespace(c: char) -> bool {
    let u = c as u32;
    ||| u == 0x85
    ||| u == 0xA0
    ||| u == 0x1680
    ||| 0x2000 <= u <= 0x200A
    ||| u == 0x2028
    ||| u == 0x2029
    ||| u == 0x202F
    ||| u == 0x205F
    ||| u == 0x3000
}

/// `char::is_alphanumeric`: inside ASCII exactly the letters and digits.
pub open spec fn is_alphanumeric(c: char) -> bool {
    if is_ascii(c) {
        is_ascii_letter(c) || is_digit(c)
    } else {
        unicode_alphanumeric(c)
    }
}

/// `char::is_whitespace`: inside ASCII exactly tab, line feed, vertical tab,
/// form feed, carriage return and space.
pub open spec fn is_whitespace(c: char) -> bool {
    if is_ascii(c) {
        c == ' ' || ('\t' <= c && c <= '\r')
    } else {
        unicode_whitespace(c)
    }
}

/// A character that may continue a name.
pub open spec fn is_ident_continue(c: char) -> bool {
    is_alphanumeric(c) || c == '_'
}

/// Asks `char::is_alphanumeric` about a character outside ASCII. The contract
/// claims only that the answer depends on the character alone.
#[verifier::external_body]
fn non_ascii_is_alphanumeric(c: char) -> (r: bool)
    requires
        !is_ascii(c),
    ensures
        r == unicode_alphanumeric(c),
{
    c.is_alphanumeric()
}

/// Asks `char::is_whitespace` about a character outside ASCII. The contract
/// claims that the answer is the White_Space property, which std documents
/// `is_whitespace` to test, as listed in `unicode_whitespace`.
#[verifier::external_body]
fn non_ascii_is_whitespace(c: char) -> (r: bool)
    requires
        !is_ascii(c),
    ensures
        r == unicode_whitespace(c),
{
    c.is_whitespace()
}

pub fn digit(c: char) -> (r: bool)
    ensures
        r == is_digit(c),
{
    '0' <= c && c <= '9'
}

pub fn ident_start(c: char) -> (r: bool)
    ensures
        r == is_ident_start(c),
{
    ('a' <= c && c <= 'z') || ('A' <= c && c <= 'Z') || c == '_'
}

pub fn alphanumeric(c: char) -> (r: bool)
    ensures
        r == is_alphanumeric(c),
{
    if (c as u32) < 128 {
        ('a' <= c && c <= 'z') || ('A' <= c && c <= 'Z') || ('0' <= c && c <= '9')
    } else {
        non_ascii_is_alphanumeric(c)
    }
}

pub fn ident_continue(c: char) -> (r: bool)
    ensures
        r == is_ident_continue(c),
{
    alphanumeric(c) || c == '_'
}

pub fn whitespace(c: char) -> (r: bool)
    ensures
        r == is_whitespace(c),
{
    if (c as u32) < 128 {
        c == ' ' || ('\t' <= c && c <= '\r')
    } else {
        non_ascii_is_whitespace(c)
    }
}

/// Compares two string slices character by character.
pub fn str_equal(a: &str, b: &str) -> (r: bool)
    ensures
        r == (a@ == b@),
{
    let n = a.unicode_len();
    let m = b.unicode_len();
    if n != m {
        return false;
    }
    let mut i: usize = 0;
    while i < n
        invariant
            n == a@.len(),
            m == b@.len(),
            n == m,
            i <= n,
            forall|k: int| 0 <= k < i ==> a@[k] == b@[k],
        decreases n - i,
    {
        if a.get_char(i) != b.get_char(i) {
            return false;
        }
        i = i + 1;
    }
    assert(a@ =~= b@);
    true
}

} // verus!

verus! {

/// Whether every character of the text is white space (`str::trim` would
/// leave nothing).
pub open spec fn is_blank(s: Seq<char>) -> bool {
    forall|i: int| 0 <= i < s.len() ==> is_whitespace(#[trigger] s[i])
}

pub fn blank(s: &str) -> (r: bool)
    ensures
        r == is_blank(s@),
{
    let n = s.unicode_len();
    let mut i: usize = 0;
    while i < n
        invariant
            n == s@.len(),
            i <= n,
            forall|k: int| 0 <= k < i ==> is_whitespace(#[trigger] s@[k]),
        decreases n - i,
    {
        if !whitespace(s.get_char(i)) {
            return false;
        }
        i = i + 1;
    }
    true
}

} // verus!
