//! Text primitives: decimal digits, escape decoding and encoding, and the
//! conversions between `String` and character vectors.
use vstd::prelude::*;

verus! {

/// The character of a decimal digit.
pub open spec fn digit_char(d: nat) -> char {
    if d == 0 { '0' } else if d == 1 { '1' } else if d == 2 { '2' } else if d == 3 { '3' }
    else if d == 4 { '4' } else if d == 5 { '5' } else if d == 6 { '6' } else if d == 7 { '7' }
    else if d == 8 { '8' } else { '9' }
}

/// The decimal form of `n`, without sign or leading zeros.
pub open spec fn decimal(n: nat) -> Seq<char>
    decreases n,
{
    if n < 10 {
        seq![digit_char(n)]
    } else {
        decimal(n / 10).push(digit_char(n % 10))
    }
}

pub open spec fn is_digit(c: char) -> bool {
    '0' <= c && c <= '9'
}

/// The value of a string of decimal digits.
pub open spec fn digits_value(s: Seq<char>) -> nat
    decreases s.len(),
{
    if s.len() == 0 {
        0
    } else {
        digits_value(s.drop_last()) * 10 + (s.last() as nat - '0' as nat) as nat
    }
}

/// The whitespace characters that the script grammar skips.
pub open spec fn is_space(c: char) -> bool {
    c == ' ' || c == '\t' || c == '\n' || c == '\r' || c == '\x0B' || c == '\x0C'
        || c == '\u{85}' || c == '\u{A0}' || c == '\u{1680}' || ('\u{2000}' <= c && c <= '\u{200A}')
        || c == '\u{2028}' || c == '\u{2029}' || c == '\u{202F}' || c == '\u{205F}'
        || c == '\u{3000}'
}

pub fn char_is_digit(c: char) -> (r: bool)
    ensures
        r == is_digit(c),
{
    '0' <= c && c <= '9'
}

/// Unicode whitespace, as `char::is_whitespace` defines it.
pub fn char_is_space(c: char) -> (r: bool)
    ensures
        r == is_space(c),
{
    c == ' ' || c == '\t' || c == '\n' || c == '\r' || c == '\x0B' || c == '\x0C'
        || c == '\u{85}' || c == '\u{A0}' || c == '\u{1680}' || ('\u{2000}' <= c && c <= '\u{200A}')
        || c == '\u{2028}' || c == '\u{2029}' || c == '\u{202F}' || c == '\u{205F}'
        || c == '\u{3000}'
}

/// Relies on `str::chars`: the characters of a string, in order.
#[verifier::external_body]
pub(crate) fn string_chars(s: &str) -> (r: Vec<char>)
    ensures
        r@ == s@,
{
    s.chars().collect()
}

/// Relies on `FromIterator<char>` for `String`: the characters, in order.
#[verifier::external_body]
pub(crate) fn chars_string(v: &Vec<char>) -> (r: String)
    ensures
        r@ == v@,
{
    v.iter().collect()
}

/// Relies on `String::push_str`: the text is appended.
#[verifier::external_body]
pub(crate) fn append(s: &mut String, t: &str)
    ensures
        final(s)@ == old(s)@ + t@,
{
    s.push_str(t)
}

/// Relies on `String::push`: the character is appended.
#[verifier::external_body]
pub(crate) fn push_char(s: &mut String, c: char)
    ensures
        final(s)@ == old(s)@.push(c),
{
    s.push(c)
}

/// Relies on `usize`'s `Display`: decimal digits, no sign, no leading zeros.
#[verifier::external_body]
pub(crate) fn usize_decimal(n: usize) -> (r: String)
    ensures
        r@ == decimal(n as nat),
{
    n.to_string()
}

/// What `unescape::unescape` makes of a text: the decoded text, or `None`.
pub uninterp spec fn unescaped(s: Seq<char>) -> Option<Seq<char>>;

/// What `str::escape_default` makes of a text.
pub uninterp spec fn escaped(s: Seq<char>) -> Seq<char>;

/// Relies on `unescape::unescape`: decodes backslash escapes, or refuses the
/// text; a text without a backslash comes back as it is.
#[verifier::external_body]
pub(crate) fn decode_escapes(s: &str) -> (r: Option<String>)
    ensures
        r is Some ==> unescaped(s@) == Some(r->Some_0@),
        r is None ==> unescaped(s@) is None,
        !s@.contains('\\') ==> r is Some && r->Some_0@ == s@,
{
    unescape::unescape(s)
}

/// Relies on `str::escape_default`: the text with special characters escaped.
#[verifier::external_body]
pub(crate) fn escape_text(s: &str) -> (r: String)
    ensures
        r@ == escaped(s@),
{
    s.escape_default().to_string()
}

/// Decodes the backslash escapes of `s`; a refused text is reported with
/// its own characters.
pub fn unescape(s: &Vec<char>) -> (r: Result<Vec<char>, crate::Error>)
    ensures
        unescaped(s@) is Some ==> (r matches Ok(v) && v@ == unescaped(s@)->Some_0),
        unescaped(s@) is None ==> (r matches Err(crate::Error::ParsingError(m)) && m@ == s@),
        !s@.contains('\\') ==> (r matches Ok(v) && v@ == s@),
{
    let text = chars_string(s);
    match decode_escapes(text.as_str()) {
        Some(t) => Ok(string_chars(t.as_str())),
        None => Err(crate::Error::ParsingError(text)),
    }
}

} // verus!
