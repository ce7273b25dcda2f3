//! Character classes of the JSON grammar.
//!
//! Every class is given twice: as a specification over `char`, which the
//! grammar refers to, and as an executable test that is proved to agree with it.

use vstd::prelude::*;

verus! {

/// The code points that carry the Unicode `White_Space` property.
pub open spec fn whitespace(c: char) -> bool {
    let u = c as u32;
    ||| 0x09 <= u <= 0x0D
    ||| u == 0x20
    ||| u == 0x85
    ||| u == 0xA0
    ||| u == 0x1680
    ||| 0x2000 <= u <= 0x200A
    ||| u == 0x2028
    ||| u == 0x2029
    ||| u == 0x202F
    ||| u == 0x205F
    ||| u == 0x3000
}

/// The ten ASCII digits.
pub open spec fn decimal_digit(c: char) -> bool {
    '0' <= c <= '9'
}

/// The value of a hexadecimal digit, in either letter case, and `None` for
/// every other character.
pub open spec fn hex_value(c: char) -> Option<nat> {
    if '0' <= c <= '9' {
        Some((c as u32 - '0' as u32) as nat)
    } else if 'a' <= c <= 'f' {
        Some((c as u32 - 'a' as u32 + 10) as nat)
    } else if 'A' <= c <= 'F' {
        Some((c as u32 - 'A' as u32 + 10) as nat)
    } else {
        None
    }
}

/// The characters a number token is made of: digits, `.`, `e`, `E`, `+`, `-`.
pub open spec fn number_char(c: char) -> bool {
    decimal_digit(c) || c == '.' || c == 'e' || c == 'E' || c == '+' || c == '-'
}

/// A sign character.
pub open spec fn sign_char(c: char) -> bool {
    c == '+' || c == '-'
}

/// What the character after a backslash stands for; `None` for a character
/// that starts no two-character escape. (`u` starts a longer escape and is
/// not in this table.)
pub open spec fn short_escape(c: char) -> Option<char> {
    if c == '"' {
        Some('"')
    } else if c == '\\' {
        Some('\\')
    } else if c == 'b' {
        Some('\u{8}')
    } else if c == 'f' {
        Some('\u{c}')
    } else if c == 'n' {
        Some('\n')
    } else if c == 'r' {
        Some('\r')
    } else if c == 't' {
        Some('\t')
    } else {
        None
    }
}

/// Whether a number below 2^32 is a Unicode scalar value, that is a code
/// point outside the surrogate range.
pub open spec fn scalar_value(code: nat) -> bool {
    code <= 0xD7FF || 0xE000 <= code <= 0x10FFFF
}

pub fn is_whitespace(c: char) -> (b: bool)
    ensures
        b == whitespace(c),
{
    let u: u32 = c as u32;
    (0x09 <= u && u <= 0x0D) || u == 0x20 || u == 0x85 || u == 0xA0 || u == 0x1680 || (0x2000 <= u
        && u <= 0x200A) || u == 0x2028 || u == 0x2029 || u == 0x202F || u == 0x205F || u == 0x3000
}

pub fn is_decimal_digit(c: char) -> (b: bool)
    ensures
        b == decimal_digit(c),
{
    '0' <= c && c <= '9'
}

pub fn is_sign_char(c: char) -> (b: bool)
    ensures
        b == sign_char(c),
{
    c == '+' || c == '-'
}

pub fn is_number_char(c: char) -> (b: bool)
    ensures
        b == number_char(c),
{
    is_decimal_digit(c) || c == '.' || c == 'e' || c == 'E' || c == '+' || c == '-'
}

pub fn hex_digit_value(c: char) -> (r: Option<u32>)
    ensures
        r is Some <==> hex_value(c) is Some,
        r matches Some(v) ==> v < 16 && hex_value(c) == Some(v as nat),
{
    let u: u32 = c as u32;
    if '0' <= c && c <= '9' {
        Some(u - 0x30)
    } else if 'a' <= c && c <= 'f' {
        Some(u - 0x61 + 10)
    } else if 'A' <= c && c <= 'F' {
        Some(u - 0x41 + 10)
    } else {
        None
    }
}

pub fn short_escape_of(c: char) -> (r: Option<char>)
    ensures
        r == short_escape(c),
{
    if c == '"' {
        Some('"')
    } else if c == '\\' {
        Some('\\')
    } else if c == 'b' {
        Some('\u{8}')
    } else if c == 'f' {
        Some('\u{c}')
    } else if c == 'n' {
        Some('\n')
    } else if c == 'r' {
        Some('\r')
    } else if c == 't' {
        Some('\t')
    } else {
        None
    }
}

/// `char::from_u32` turns a number into the character with that code point.
/// It answers `None` exactly for the numbers that are no Unicode scalar
/// value: the surrogates `0xD800..=0xDFFF` and everything above `0x10FFFF`.
pub assume_specification[ char::from_u32 ](i: u32) -> (r: Option<char>)
    ensures
        scalar_value(i as nat) ==> r == Some(i as char),
        !scalar_value(i as nat) ==> r is None,
;

} // verus!
