//! The shape of a decimal floating-point literal.
//!
//! A number token is kept as text. This module decides whether such a text
//! is a literal that denotes a floating-point number:
//!
//! ```text
//! literal  ::= sign? mantissa exponent?
//! mantissa ::= digit+ | digit+ '.' digit* | digit* '.' digit+
//! exponent ::= ('e' | 'E') sign? digit+
//! sign     ::= '+' | '-'
//! ```

use vstd::prelude::*;
use crate::chars::{decimal_digit, is_decimal_digit, is_sign_char, sign_char};

verus! {

/// The end of the longest run of decimal digits that starts at `i`.
pub open spec fn digits_end(t: Seq<char>, i: int) -> int
    decreases t.len() - i,
{
    if 0 <= i < t.len() && decimal_digit(t[i]) {
        digits_end(t, i + 1)
    } else {
        i
    }
}

/// Whether `t`, from index `at` to its end, is an exponent.
pub open spec fn exponent_at(t: Seq<char>, at: int) -> bool {
    let digits = if at + 1 < t.len() && sign_char(t[at + 1]) {
        at + 2
    } else {
        at + 1
    };
    &&& 0 <= at < t.len()
    &&& (t[at] == 'e' || t[at] == 'E')
    &&& digits < t.len()
    &&& digits_end(t, digits) == t.len()
}

/// Whether the whole of `t` is a decimal floating-point literal.
pub open spec fn decimal_literal(t: Seq<char>) -> bool {
    let whole = if t.len() > 0 && sign_char(t[0]) {
        1int
    } else {
        0int
    };
    let point = digits_end(t, whole);
    let end = if point < t.len() && t[point] == '.' {
        digits_end(t, point + 1)
    } else {
        point
    };
    let mantissa_digits = if end > point {
        end - whole - 1
    } else {
        point - whole
    };
    &&& mantissa_digits > 0
    &&& (end == t.len() || exponent_at(t, end))
}

/// The index of the first character at or after `from` that is no digit.
fn skip_digits(text: &[char], from: usize) -> (end: usize)
    requires
        from <= text@.len(),
    ensures
        end == digits_end(text@, from as int),
        from <= end <= text@.len(),
{
    let mut i: usize = from;
    while i < text.len() && is_decimal_digit(text[i])
        invariant
            from <= i <= text@.len(),
            digits_end(text@, i as int) == digits_end(text@, from as int),
        decreases text@.len() - i,
    {
        i = i + 1;
    }
    i
}

/// Decides whether `text` is a decimal floating-point literal.
pub fn is_decimal_literal(text: &[char]) -> (b: bool)
    ensures
        b == decimal_literal(text@),
{
    let n: usize = text.len();
    let whole: usize = if n > 0 && is_sign_char(text[0]) {
        1
    } else {
        0
    };
    let point: usize = skip_digits(text, whole);
    let end: usize = if point < n && text[point] == '.' {
        skip_digits(text, point + 1)
    } else {
        point
    };
    let mantissa_digits: usize = if end > point {
        end - whole - 1
    } else {
        point - whole
    };
    if mantissa_digits == 0 {
        return false;
    }
    if end == n {
        return true;
    }
    if text[end] != 'e' && text[end] != 'E' {
        return false;
    }
    let digits: usize = if end + 1 < n && is_sign_char(text[end + 1]) {
        end + 2
    } else {
        end + 1
    };
    digits < n && skip_digits(text, digits) == n
}

} // verus!
