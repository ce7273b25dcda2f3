//! The grammar, as functions on sequences of characters.
//!
//! Each function takes a text and an index into it and answers what reading
//! one construct from that index gives: the value together with the index
//! just behind the construct, or the first problem met on the way. The
//! grammar is lenient about commas: inside an object or an array a comma may
//! stand anywhere between members, or be left out.

use vstd::prelude::*;
use crate::chars::{decimal_digit, hex_value, number_char, scalar_value, short_escape, whitespace};
use crate::error::{Failure, Literal};
use crate::number::decimal_literal;
use crate::value::Json;

verus! {

/// What reading a construct gives: its value and the index behind it, or a failure.
pub type Scan<T> = Result<(T, int), Failure>;

/// The index of the first character at or after `i` that is no whitespace;
/// the length of the text if there is none.
pub open spec fn after_whitespace(s: Seq<char>, i: int) -> int
    decreases s.len() - i,
{
    if 0 <= i < s.len() && whitespace(s[i]) {
        after_whitespace(s, i + 1)
    } else {
        i
    }
}

/// Every character of `t` is whitespace.
pub open spec fn blank(t: Seq<char>) -> bool {
    forall|k: int| 0 <= k < t.len() ==> whitespace(#[trigger] t[k])
}

/// What a keyword denotes.
pub open spec fn literal_value(literal: Literal) -> Json {
    match literal {
        Literal::Null => Json::Null,
        Literal::True => Json::Bool(true),
        Literal::False => Json::Bool(false),
    }
}

/// Whether the text `t` stands in `s` at index `i`.
pub open spec fn occurs_at(s: Seq<char>, i: int, t: Seq<char>) -> bool {
    &&& 0 <= i
    &&& i + t.len() <= s.len()
    &&& s.subrange(i, i + t.len()) == t
}

/// Reads a keyword at `i`: the text must spell it out in full.
pub open spec fn scan_literal(s: Seq<char>, i: int, literal: Literal) -> Scan<Json> {
    if occurs_at(s, i, literal.text()) {
        Ok((literal_value(literal), i + literal.text().len()))
    } else {
        Err(Failure::InvalidLiteral { expected: literal })
    }
}

/// Reads `count` hexadecimal digits at `i` into the number they spell,
/// continuing the number `acc` already read.
pub open spec fn scan_hex(s: Seq<char>, i: int, count: nat, acc: nat) -> Result<nat, Failure>
    decreases count,
{
    if count == 0 {
        Ok(acc)
    } else if i < 0 || i >= s.len() {
        Err(Failure::UnterminatedString)
    } else {
        match hex_value(s[i]) {
            None => Err(Failure::InvalidUnicodeEscape),
            Some(digit) => scan_hex(s, i + 1, (count - 1) as nat, acc * 16 + digit),
        }
    }
}

/// Reads the four digits of a `\u` escape at `i` into the character they
/// name. Each escape stands for itself: two surrogates are not joined.
pub open spec fn scan_code_point(s: Seq<char>, i: int) -> Result<char, Failure> {
    match scan_hex(s, i, 4, 0) {
        Err(e) => Err(e),
        Ok(code) => if scalar_value(code) {
            Ok(code as char)
        } else {
            Err(Failure::InvalidUnicodeEscape)
        },
    }
}

/// Reads the rest of a string whose characters up to `i` gave `acc`: up to
/// the closing quote, with every escape replaced by what it stands for.
pub open spec fn scan_string_from(s: Seq<char>, i: int, acc: Seq<char>) -> Scan<Seq<char>>
    decreases s.len() - i,
    via scan_string_from_decreases
{
    if i < 0 || i >= s.len() {
        Err(Failure::UnterminatedString)
    } else if s[i] == '"' {
        Ok((acc, i + 1))
    } else if s[i] != '\\' {
        scan_string_from(s, i + 1, acc.push(s[i]))
    } else if i + 1 >= s.len() {
        Err(Failure::UnterminatedString)
    } else if s[i + 1] == 'u' {
        match scan_code_point(s, i + 2) {
            Err(e) => Err(e),
            Ok(c) => scan_string_from(s, i + 6, acc.push(c)),
        }
    } else {
        match short_escape(s[i + 1]) {
            None => Err(Failure::InvalidEscape { ch: s[i + 1] }),
            Some(c) => scan_string_from(s, i + 2, acc.push(c)),
        }
    }
}

/// Reads a string whose opening quote stands just before `i`.
pub open spec fn scan_string(s: Seq<char>, i: int) -> Scan<Seq<char>> {
    scan_string_from(s, i, Seq::empty())
}

/// The end of the longest run of number characters that starts at `i`.
pub open spec fn number_end(s: Seq<char>, i: int) -> int
    decreases s.len() - i,
{
    if 0 <= i < s.len() && number_char(s[i]) {
        number_end(s, i + 1)
    } else {
        i
    }
}

/// Reads a number at `i`: the longest run of number characters, which must
/// be a decimal literal as a whole.
pub open spec fn scan_number(s: Seq<char>, i: int) -> Scan<Seq<char>> {
    let end = number_end(s, i);
    let text = s.subrange(i, end);
    if decimal_literal(text) {
        Ok((text, end))
    } else {
        Err(Failure::InvalidNumber { text })
    }
}

/// Reads a string as a value.
pub open spec fn scan_string_value(s: Seq<char>, i: int) -> Scan<Json> {
    match scan_string(s, i) {
        Ok((text, next)) => Ok((Json::String(text), next)),
        Err(e) => Err(e),
    }
}

/// Reads a number as a value.
pub open spec fn scan_number_value(s: Seq<char>, i: int) -> Scan<Json> {
    match scan_number(s, i) {
        Ok((text, next)) => Ok((Json::Number(text), next)),
        Err(e) => Err(e),
    }
}

/// Reads one value at `i`, after any whitespace. `depth` is the number of
/// levels of arrays and objects that the value may have.
pub open spec fn scan_value(s: Seq<char>, i: int, depth: nat) -> Scan<Json>
    decreases s.len() - i, 0int,
    via scan_value_decreases
{
    let j = after_whitespace(s, i);
    if i < 0 || j >= s.len() {
        Err(Failure::UnexpectedEndOfInput)
    } else if s[j] == 'n' {
        scan_literal(s, j, Literal::Null)
    } else if s[j] == 't' {
        scan_literal(s, j, Literal::True)
    } else if s[j] == 'f' {
        scan_literal(s, j, Literal::False)
    } else if s[j] == '"' {
        scan_string_value(s, j + 1)
    } else if s[j] == '{' {
        scan_object(s, j + 1, depth)
    } else if s[j] == '[' {
        scan_array(s, j + 1, depth)
    } else if decimal_digit(s[j]) {
        scan_number_value(s, j)
    } else {
        Err(Failure::UnexpectedCharacter { at: j })
    }
}

/// Reads an object whose opening brace stands just before `i`.
pub open spec fn scan_object(s: Seq<char>, i: int, depth: nat) -> Scan<Json>
    decreases s.len() - i, 2int,
{
    if depth == 0 {
        Err(Failure::NestingTooDeep)
    } else {
        scan_members(s, i, (depth - 1) as nat, Map::empty())
    }
}

/// Reads an array whose opening bracket stands just before `i`.
pub open spec fn scan_array(s: Seq<char>, i: int, depth: nat) -> Scan<Json>
    decreases s.len() - i, 2int,
{
    if depth == 0 {
        Err(Failure::NestingTooDeep)
    } else {
        scan_elements(s, i, (depth - 1) as nat, Seq::empty())
    }
}

/// Reads the rest of an object whose members up to `i` gave `acc`. A member
/// starts with any character that is neither `}` nor `,` nor whitespace; that
/// character takes the place of the key's opening quote. A later member
/// with the same key replaces an earlier one.
///
/// The test `colon < next <= s.len()` on what reading the member's value gave
/// never fails (`lemma_scan_value_advances`); it is what lets the definition
/// go on from `next`.
pub open spec fn scan_members(s: Seq<char>, i: int, depth: nat, acc: Map<Seq<char>, Json>) -> Scan<
    Json,
>
    decreases s.len() - i, 1int,
    via scan_members_decreases
{
    let j = after_whitespace(s, i);
    if i < 0 || j >= s.len() {
        Err(Failure::UnterminatedObject)
    } else if s[j] == '}' {
        Ok((Json::Object(acc), j + 1))
    } else if s[j] == ',' {
        scan_members(s, j + 1, depth, acc)
    } else {
        match scan_string(s, j + 1) {
            Err(e) => Err(e),
            Ok((key, behind_key)) => {
                let colon = after_whitespace(s, behind_key);
                if colon >= s.len() {
                    Err(Failure::UnexpectedEndOfInput)
                } else if s[colon] != ':' {
                    Err(Failure::UnexpectedCharacter { at: colon })
                } else {
                    match scan_value(s, colon + 1, depth) {
                        Err(e) => Err(e),
                        Ok((value, next)) => if colon < next <= s.len() {
                            scan_members(s, next, depth, acc.insert(key, value))
                        } else {
                            Err(Failure::UnexpectedEndOfInput)
                        },
                    }
                }
            },
        }
    }
}

/// Reads the rest of an array whose elements up to `i` gave `acc`.
///
/// The test `j < next <= s.len()` on what reading an element gave never
/// fails (`lemma_scan_value_advances`); it is what lets the definition go on
/// from `next`.
pub open spec fn scan_elements(s: Seq<char>, i: int, depth: nat, acc: Seq<Json>) -> Scan<Json>
    decreases s.len() - i, 1int,
    via scan_elements_decreases
{
    let j = after_whitespace(s, i);
    if i < 0 || j >= s.len() {
        Err(Failure::UnterminatedArray)
    } else if s[j] == ']' {
        Ok((Json::Array(acc), j + 1))
    } else if s[j] == ',' {
        scan_elements(s, j + 1, depth, acc)
    } else {
        match scan_value(s, j, depth) {
            Err(e) => Err(e),
            Ok((value, next)) => if j < next <= s.len() {
                scan_elements(s, next, depth, acc.push(value))
            } else {
                Err(Failure::UnexpectedEndOfInput)
            },
        }
    }
}

/// Reads a document at `i`: after any whitespace, an object or an array.
/// A value of another kind is no document. What follows the document is
/// not looked at.
pub open spec fn scan_document(s: Seq<char>, i: int, depth: nat) -> Scan<Json> {
    let j = after_whitespace(s, i);
    if i < 0 || j >= s.len() {
        Err(Failure::UnexpectedEndOfInput)
    } else if s[j] == '{' {
        scan_object(s, j + 1, depth)
    } else if s[j] == '[' {
        scan_array(s, j + 1, depth)
    } else {
        Err(Failure::UnexpectedCharacter { at: j })
    }
}

#[via_fn]
proof fn scan_string_from_decreases(s: Seq<char>, i: int, acc: Seq<char>) {
    if 0 <= i && i + 2 <= s.len() {
        lemma_scan_hex_in_bounds(s, i + 2, 4, 0);
    }
}

#[via_fn]
proof fn scan_value_decreases(s: Seq<char>, i: int, depth: nat) {
    if 0 <= i <= s.len() {
        lemma_after_whitespace(s, i);
    }
}

#[via_fn]
proof fn scan_members_decreases(s: Seq<char>, i: int, depth: nat, acc: Map<Seq<char>, Json>) {
    if 0 <= i <= s.len() {
        lemma_after_whitespace(s, i);
        let j = after_whitespace(s, i);
        if j < s.len() {
            lemma_scan_string_from_advances(s, j + 1, Seq::empty());
            if let Ok((key, behind_key)) = scan_string(s, j + 1) {
                lemma_after_whitespace(s, behind_key);
            }
        }
    }
}

#[via_fn]
proof fn scan_elements_decreases(s: Seq<char>, i: int, depth: nat, acc: Seq<Json>) {
    if 0 <= i <= s.len() {
        lemma_after_whitespace(s, i);
    }
}

/// Skipping whitespace ends inside the text, at or after the place it
/// starts, on a character that is no whitespace or at the end; and every
/// character passed over is whitespace.
pub proof fn lemma_after_whitespace(s: Seq<char>, i: int)
    requires
        0 <= i <= s.len(),
    ensures
        i <= after_whitespace(s, i) <= s.len(),
        after_whitespace(s, i) < s.len() ==> !whitespace(s[after_whitespace(s, i)]),
        forall|k: int| i <= k < after_whitespace(s, i) ==> whitespace(#[trigger] s[k]),
    decreases s.len() - i,
{
    if i < s.len() && whitespace(s[i]) {
        lemma_after_whitespace(s, i + 1);
    }
}

/// Where a text stands, each of its characters stands.
pub proof fn lemma_occurs_at_index(s: Seq<char>, i: int, t: Seq<char>, k: int)
    requires
        occurs_at(s, i, t),
        0 <= k < t.len(),
    ensures
        s[i + k] == t[k],
{
    assert(s.subrange(i, i + t.len())[k] == s[i + k]);
}

/// Where two texts stand one behind the other, each of them stands.
pub proof fn lemma_occurs_at_concat(s: Seq<char>, i: int, a: Seq<char>, b: Seq<char>)
    requires
        occurs_at(s, i, a + b),
    ensures
        occurs_at(s, i, a),
        occurs_at(s, i + a.len(), b),
{
    let t = a + b;
    assert forall|k: int| 0 <= k < a.len() implies s.subrange(i, i + a.len())[k] == a[k] by {
        lemma_occurs_at_index(s, i, t, k);
    }
    assert(s.subrange(i, i + a.len()) =~= a);
    assert forall|k: int| 0 <= k < b.len() implies s.subrange(i + a.len(), i + a.len() + b.len())[k]
        == b[k] by {
        lemma_occurs_at_index(s, i, t, a.len() + k);
    }
    assert(s.subrange(i + a.len(), i + a.len() + b.len()) =~= b);
}

/// Whitespace is skipped up to the first character that is none.
pub proof fn lemma_after_whitespace_run(s: Seq<char>, i: int, n: nat)
    requires
        0 <= i,
        i + n <= s.len(),
        forall|k: int| i <= k < i + n ==> whitespace(#[trigger] s[k]),
        i + n == s.len() || !whitespace(s[i + n]),
    ensures
        after_whitespace(s, i) == i + n,
    decreases n,
{
    if n > 0 {
        assert(whitespace(s[i]));
        lemma_after_whitespace_run(s, i + 1, (n - 1) as nat);
    }
}

/// Whitespace that stands at `i`, with something else behind it, is skipped.
pub proof fn lemma_after_blank(s: Seq<char>, i: int, w: Seq<char>)
    requires
        occurs_at(s, i, w),
        blank(w),
        i + w.len() == s.len() || !whitespace(s[i + w.len()]),
    ensures
        after_whitespace(s, i) == i + w.len(),
{
    assert forall|k: int| i <= k < i + w.len() implies whitespace(#[trigger] s[k]) by {
        lemma_occurs_at_index(s, i, w, k - i);
        assert(whitespace(w[k - i]));
    }
    lemma_after_whitespace_run(s, i, w.len());
}

/// A run of number characters ends at the first character that is none.
pub proof fn lemma_number_end_run(s: Seq<char>, i: int, n: nat)
    requires
        0 <= i,
        i + n <= s.len(),
        forall|k: int| i <= k < i + n ==> number_char(#[trigger] s[k]),
        i + n == s.len() || !number_char(s[i + n]),
    ensures
        number_end(s, i) == i + n,
    decreases n,
{
    if n > 0 {
        assert(number_char(s[i]));
        lemma_number_end_run(s, i + 1, (n - 1) as nat);
    }
}

/// A run of number characters ends inside the text, at or after the place
/// it starts; every character of it is a number character, and behind it
/// stands none.
pub proof fn lemma_number_end(s: Seq<char>, i: int)
    requires
        0 <= i <= s.len(),
    ensures
        i <= number_end(s, i) <= s.len(),
        forall|k: int| i <= k < number_end(s, i) ==> number_char(#[trigger] s[k]),
        number_end(s, i) == s.len() || !number_char(s[number_end(s, i)]),
    decreases s.len() - i,
{
    if i < s.len() && number_char(s[i]) {
        lemma_number_end(s, i + 1);
    }
}

/// Where hexadecimal digits were read, the text holds that many characters.
pub proof fn lemma_scan_hex_in_bounds(s: Seq<char>, i: int, count: nat, acc: nat)
    requires
        0 <= i <= s.len(),
    ensures
        scan_hex(s, i, count, acc) is Ok ==> i + count <= s.len(),
    decreases count,
{
    if count > 0 && i < s.len() {
        if let Some(digit) = hex_value(s[i]) {
            lemma_scan_hex_in_bounds(s, i + 1, (count - 1) as nat, acc * 16 + digit);
        }
    }
}

/// A string that was read ends behind its closing quote, inside the text.
pub proof fn lemma_scan_string_from_advances(s: Seq<char>, i: int, acc: Seq<char>)
    ensures
        scan_string_from(s, i, acc) matches Ok((_, next)) ==> i < next <= s.len(),
    decreases s.len() - i,
{
    if 0 <= i < s.len() && s[i] != '"' {
        if s[i] != '\\' {
            lemma_scan_string_from_advances(s, i + 1, acc.push(s[i]));
        } else if i + 1 < s.len() {
            if s[i + 1] == 'u' {
                lemma_scan_hex_in_bounds(s, i + 2, 4, 0);
                if let Ok(c) = scan_code_point(s, i + 2) {
                    lemma_scan_string_from_advances(s, i + 6, acc.push(c));
                }
            } else if let Some(c) = short_escape(s[i + 1]) {
                lemma_scan_string_from_advances(s, i + 2, acc.push(c));
            }
        }
    }
}

/// A value that was read ends behind the place where reading started,
/// inside the text.
pub proof fn lemma_scan_value_advances(s: Seq<char>, i: int, depth: nat)
    ensures
        scan_value(s, i, depth) matches Ok((_, next)) ==> i < next <= s.len(),
    decreases s.len() - i, 0int,
{
    if 0 <= i <= s.len() {
        lemma_after_whitespace(s, i);
        let j = after_whitespace(s, i);
        if j < s.len() {
            if s[j] == '"' {
                lemma_scan_string_from_advances(s, j + 1, Seq::empty());
            } else if s[j] == '{' {
                lemma_scan_object_advances(s, j + 1, depth);
            } else if s[j] == '[' {
                lemma_scan_array_advances(s, j + 1, depth);
            } else if decimal_digit(s[j]) {
                lemma_number_end(s, j + 1);
            }
        }
    }
}

/// Reading a value starts behind the whitespace before it.
pub proof fn lemma_scan_value_after_whitespace(s: Seq<char>, i: int, depth: nat)
    requires
        0 <= i <= s.len(),
    ensures
        scan_value(s, i, depth) == scan_value(s, after_whitespace(s, i), depth),
{
    lemma_after_whitespace(s, i);
    let j = after_whitespace(s, i);
    if j < s.len() {
        lemma_after_whitespace_run(s, j, 0);
    } else {
        assert(after_whitespace(s, j) == j);
    }
}

/// An object that was read ends behind the place where reading started,
/// inside the text.
pub proof fn lemma_scan_object_advances(s: Seq<char>, i: int, depth: nat)
    ensures
        scan_object(s, i, depth) matches Ok((_, next)) ==> i < next <= s.len(),
    decreases s.len() - i, 2int,
{
    if depth > 0 {
        lemma_scan_members_advances(s, i, (depth - 1) as nat, Map::empty());
    }
}

/// An array that was read ends behind the place where reading started,
/// inside the text.
pub proof fn lemma_scan_array_advances(s: Seq<char>, i: int, depth: nat)
    ensures
        scan_array(s, i, depth) matches Ok((_, next)) ==> i < next <= s.len(),
    decreases s.len() - i, 2int,
{
    if depth > 0 {
        lemma_scan_elements_advances(s, i, (depth - 1) as nat, Seq::empty());
    }
}

/// The rest of an object that was read ends behind the place where reading
/// started, inside the text.
pub proof fn lemma_scan_members_advances(
    s: Seq<char>,
    i: int,
    depth: nat,
    acc: Map<Seq<char>, Json>,
)
    ensures
        scan_members(s, i, depth, acc) matches Ok((_, next)) ==> i < next <= s.len(),
    decreases s.len() - i, 1int,
{
    if 0 <= i <= s.len() {
        lemma_after_whitespace(s, i);
        let j = after_whitespace(s, i);
        if j < s.len() && s[j] != '}' {
            if s[j] == ',' {
                lemma_scan_members_advances(s, j + 1, depth, acc);
            } else {
                lemma_scan_string_from_advances(s, j + 1, Seq::empty());
                if let Ok((key, behind_key)) = scan_string(s, j + 1) {
                    lemma_after_whitespace(s, behind_key);
                    let colon = after_whitespace(s, behind_key);
                    if colon < s.len() && s[colon] == ':' {
                        if let Ok((value, next)) = scan_value(s, colon + 1, depth) {
                            if colon < next <= s.len() {
                                lemma_scan_members_advances(s, next, depth, acc.insert(key, value));
                            }
                        }
                    }
                }
            }
        }
    }
}

/// The rest of an array that was read ends behind the place where reading
/// started, inside the text.
pub proof fn lemma_scan_elements_advances(s: Seq<char>, i: int, depth: nat, acc: Seq<Json>)
    ensures
        scan_elements(s, i, depth, acc) matches Ok((_, next)) ==> i < next <= s.len(),
    decreases s.len() - i, 1int,
{
    if 0 <= i <= s.len() {
        lemma_after_whitespace(s, i);
        let j = after_whitespace(s, i);
        if j < s.len() && s[j] != ']' {
            if s[j] == ',' {
                lemma_scan_elements_advances(s, j + 1, depth, acc);
            } else if let Ok((value, next)) = scan_value(s, j, depth) {
                if j < next <= s.len() {
                    lemma_scan_elements_advances(s, next, depth, acc.push(value));
                }
            }
        }
    }
}

} // verus!
