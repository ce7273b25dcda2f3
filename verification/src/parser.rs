//! The reader: a cursor over the code points of a text, and one routine per
//! construct of the grammar.
//!
//! Every routine either reads its construct and leaves the cursor just
//! behind it, or reports the first problem and leaves the cursor where it was.

use vstd::prelude::*;
use vstd::slice::slice_subrange;
use crate::chars::{
    hex_digit_value,
    is_decimal_digit,
    is_number_char,
    is_whitespace,
    short_escape_of,
};
use crate::error::{Failure, Literal, ParseError};
use crate::grammar::{
    after_whitespace,
    lemma_after_whitespace,
    number_end,
    occurs_at,
    scan_array,
    scan_document,
    scan_elements,
    scan_members,
    scan_object,
    scan_value,
    lemma_scan_string_from_advances,
    lemma_scan_value_advances,
    scan_hex,
    scan_literal,
    scan_number,
    scan_string,
    scan_string_from,
    scan_number_value,
    scan_string_value,
    Scan,
};
use crate::number::{decimal_literal, is_decimal_literal};
use crate::value::{
    distinct_keys,
    elements_view,
    insert_member,
    lemma_last_key_index_is_last,
    members_view,
    Json,
    JSONTYPE,
};

verus! {

/// The number of levels of arrays and objects that a reader made by
/// [`JSONString::new`] accepts.
pub const DEFAULT_MAX_DEPTH: usize = 128;

/// What a reader is, to a specification: the text, the index of the next
/// code point, and the number of levels of arrays and objects that may still
/// be opened.
pub struct Cursor {
    pub input: Seq<char>,
    pub position: int,
    pub depth: nat,
}

/// A reader: a text, a position in it, and the number of levels of arrays
/// and objects that it may still open. The position counts code points and
/// never passes the end of the text.
pub struct JSONString {
    data: Vec<char>,
    index: usize,
    depth: usize,
}

/// `String::push` appends the character to the end of the string and
/// leaves the characters before it as they were.
pub assume_specification[ std::string::String::push ](s: &mut std::string::String, ch: char)
    ensures
        final(s)@ == old(s)@.push(ch),
;

/// How a routine that reads a value leaves the cursor and what it returns,
/// given what the grammar says about the text at the cursor.
pub open spec fn reads(
    before: Cursor,
    after: Cursor,
    result: Result<JSONTYPE, ParseError>,
    expected: Scan<Json>,
) -> bool {
    &&& after.input == before.input
    &&& after.depth == before.depth
    &&& match expected {
        Ok((value, next)) => {
            &&& result matches Ok(v)
            &&& v@ == value
            &&& v.well_formed()
            &&& after.position == next
        },
        Err(failure) => {
            &&& result matches Err(e)
            &&& e@ == failure
            &&& after.position == before.position
        },
    }
}

/// The same for a routine that reads a text: the content of a string, or
/// the literal of a number.
pub open spec fn reads_text(
    before: Cursor,
    after: Cursor,
    result: Result<String, ParseError>,
    expected: Scan<Seq<char>>,
) -> bool {
    &&& after.input == before.input
    &&& after.depth == before.depth
    &&& match expected {
        Ok((text, next)) => {
            &&& result matches Ok(t)
            &&& t@ == text
            &&& after.position == next
        },
        Err(failure) => {
            &&& result matches Err(e)
            &&& e@ == failure
            &&& after.position == before.position
        },
    }
}

/// The least number that `count` hexadecimal digits cannot spell, for up to
/// three digits.
spec fn hex_limit(count: u8) -> nat {
    if count == 0 {
        1
    } else if count == 1 {
        0x10
    } else if count == 2 {
        0x100
    } else {
        0x1000
    }
}

/// Where the scanner of a string stands.
enum StringState {
    /// Between characters.
    Normal,
    /// Behind a backslash.
    Escaped,
    /// Behind `\u` and `count` hexadecimal digits that spell `code`.
    Unicode { count: u8, code: u32 },
}

impl View for JSONString {
    type V = Cursor;

    closed spec fn view(&self) -> Cursor {
        Cursor { input: self.data@, position: self.index as int, depth: self.depth as nat }
    }
}

impl JSONString {
    #[verifier::type_invariant]
    spec fn in_bounds(&self) -> bool {
        self.index <= self.data@.len()
    }

    /// A reader at the start of `data` that accepts [`DEFAULT_MAX_DEPTH`]
    /// levels of arrays and objects.
    pub fn new(data: String) -> (r: JSONString)
        ensures
            r@ == (Cursor { input: data@, position: 0, depth: DEFAULT_MAX_DEPTH as nat }),
    {
        JSONString::with_max_depth(data, DEFAULT_MAX_DEPTH)
    }

    /// A reader at the start of `data` that accepts `max_depth` levels of
    /// arrays and objects. Every level that is read takes room on the call
    /// stack, so the limit is what keeps a deeply nested text from
    /// exhausting it.
    pub fn with_max_depth(data: String, max_depth: usize) -> (r: JSONString)
        ensures
            r@ == (Cursor { input: data@, position: 0, depth: max_depth as nat }),
    {
        let mut chars: Vec<char> = Vec::new();
        for c in it: data.as_str().chars()
            invariant
                chars@ == it.seq().take(it.index()),
        {
            chars.push(c);
        }
        assert(chars@ == data@);
        JSONString { data: chars, index: 0, depth: max_depth }
    }

    /// The index of the next code point, which is inside the text or at its end.
    pub fn position(&self) -> (r: usize)
        ensures
            r == self@.position,
            r <= self@.input.len(),
    {
        proof {
            use_type_invariant(self);
        }
        self.index
    }

    /// Consumes the code point at the cursor and returns it; `None` at the
    /// end of the text.
    pub fn next(&mut self) -> (r: Option<char>)
        ensures
            final(self)@.input == old(self)@.input,
            final(self)@.depth == old(self)@.depth,
            old(self)@.position < old(self)@.input.len() ==> r == Some(
                old(self)@.input[old(self)@.position],
            ) && final(self)@.position == old(self)@.position + 1,
            old(self)@.position >= old(self)@.input.len() ==> r is None && final(self)@.position
                == old(self)@.position,
    {
        proof {
            use_type_invariant(&*self);
        }
        if self.index < self.data.len() {
            let c = self.data[self.index];
            self.index = self.index + 1;
            Some(c)
        } else {
            None
        }
    }

    /// Returns the code point at the cursor without consuming it; `None` at
    /// the end of the text.
    pub fn peek(&self) -> (r: Option<char>)
        ensures
            self@.position < self@.input.len() ==> r == Some(self@.input[self@.position]),
            self@.position >= self@.input.len() ==> r is None,
    {
        proof {
            use_type_invariant(self);
        }
        if self.index < self.data.len() {
            Some(self.data[self.index])
        } else {
            None
        }
    }

    /// Moves the cursor to the first code point at or after it that is no
    /// whitespace, or to the end of the text.
    pub fn skip_whitespace(&mut self)
        ensures
            final(self)@.input == old(self)@.input,
            final(self)@.depth == old(self)@.depth,
            final(self)@.position == after_whitespace(old(self)@.input, old(self)@.position),
    {
        proof {
            use_type_invariant(&*self);
        }
        while self.index < self.data.len() && is_whitespace(self.data[self.index])
            invariant
                self.data@ == old(self).data@,
                self.depth == old(self).depth,
                self.index <= self.data@.len(),
                after_whitespace(self.data@, self.index as int) == after_whitespace(
                    old(self).data@,
                    old(self).index as int,
                ),
            decreases self.data@.len() - self.index,
        {
            self.index = self.index + 1;
        }
    }
}

impl JSONString {
    /// Reads the keyword `literal`, which must stand at the cursor in full.
    fn parse_literal(&mut self, literal: Literal) -> (r: Result<JSONTYPE, ParseError>)
        ensures
            reads(
                old(self)@,
                final(self)@,
                r,
                scan_literal(old(self)@.input, old(self)@.position, literal),
            ),
    {
        proof {
            use_type_invariant(&*self);
        }
        let ghost s = self.data@;
        let start: usize = self.index;
        let left: usize = self.data.len() - start;
        let mut matched: usize = 0;
        for c in it: literal.as_str().chars()
            invariant
                self.data@ == s,
                self.index == start,
                self.depth == old(self).depth,
                start + left == s.len() <= usize::MAX,
                it.seq() == literal.text(),
                matched == it.index(),
                matched <= left,
                forall|k: int| 0 <= k < matched ==> s[start + k] == literal.text()[k],
        {
            if matched >= left || self.data[start + matched] != c {
                assert(!occurs_at(s, start as int, literal.text())) by {
                    if occurs_at(s, start as int, literal.text()) {
                        assert(s.subrange(start as int, start + literal.text().len())[matched as int]
                            == c);
                    }
                }
                return Err(ParseError::InvalidLiteral { expected: literal });
            }
            matched = matched + 1;
        }
        assert(s.subrange(start as int, start + matched) =~= literal.text());
        self.index = start + matched;
        Ok(
            match literal {
                Literal::Null => JSONTYPE::Null,
                Literal::True => JSONTYPE::Bool(true),
                Literal::False => JSONTYPE::Bool(false),
            },
        )
    }

    /// Reads the keyword `null` at the cursor.
    pub fn parse_null(&mut self) -> (r: Result<JSONTYPE, ParseError>)
        ensures
            reads(
                old(self)@,
                final(self)@,
                r,
                scan_literal(old(self)@.input, old(self)@.position, Literal::Null),
            ),
    {
        self.parse_literal(Literal::Null)
    }

    /// Reads a keyword for a truth value at the cursor: `true` where a `t`
    /// stands there, `false` otherwise.
    pub fn parse_bool(&mut self) -> (r: Result<JSONTYPE, ParseError>)
        ensures
            reads(
                old(self)@,
                final(self)@,
                r,
                scan_literal(
                    old(self)@.input,
                    old(self)@.position,
                    bool_literal_at(old(self)@.input, old(self)@.position),
                ),
            ),
    {
        let literal = match self.peek() {
            Some(c) => if c == 't' {
                Literal::True
            } else {
                Literal::False
            },
            None => Literal::False,
        };
        self.parse_literal(literal)
    }
}

/// The keyword for a truth value that is looked for at `i`.
pub open spec fn bool_literal_at(s: Seq<char>, i: int) -> Literal {
    if 0 <= i < s.len() && s[i] == 't' {
        Literal::True
    } else {
        Literal::False
    }
}

impl JSONString {
    /// Moves the cursor back to `start` and reports `error`.
    fn fail_at<T>(&mut self, start: usize, error: ParseError) -> (r: Result<T, ParseError>)
        requires
            start <= old(self)@.input.len(),
        ensures
            final(self)@.input == old(self)@.input,
            final(self)@.depth == old(self)@.depth,
            final(self)@.position == start,
            r == Err::<T, ParseError>(error),
    {
        self.index = start;
        Err(error)
    }

    /// Reads the content of a string whose opening quote stands just before
    /// the cursor, up to and including the closing quote.
    fn read_string(&mut self) -> (r: Result<String, ParseError>)
        ensures
            reads_text(
                old(self)@,
                final(self)@,
                r,
                scan_string(old(self)@.input, old(self)@.position),
            ),
    {
        proof {
            use_type_invariant(&*self);
        }
        let start: usize = self.index;
        let ghost s = self.data@;
        let ghost goal = scan_string(s, start as int);
        let mut text = String::new();
        let mut state = StringState::Normal;
        loop
            invariant
                self.data@ == s,
                self.depth == old(self).depth,
                old(self)@.input == s,
                old(self)@.position == start,
                start <= self.index <= s.len(),
                goal == scan_string(s, start as int),
                match state {
                    StringState::Normal => scan_string_from(s, self.index as int, text@) == goal,
                    StringState::Escaped => {
                        &&& start < self.index
                        &&& s[self.index - 1] == '\\'
                        &&& scan_string_from(s, self.index - 1, text@) == goal
                    },
                    StringState::Unicode { count, code } => {
                        &&& count < 4
                        &&& start + count + 2 <= self.index
                        &&& s[self.index - count - 2] == '\\'
                        &&& s[self.index - count - 1] == 'u'
                        &&& scan_string_from(s, self.index - count - 2, text@) == goal
                        &&& scan_hex(s, self.index - count, 4, 0) == scan_hex(
                            s,
                            self.index as int,
                            (4 - count) as nat,
                            code as nat,
                        )
                        &&& code < hex_limit(count)
                    },
                },
            decreases s.len() - self.index,
        {
            let ghost i = self.index as int;
            let c = match self.next() {
                Some(c) => c,
                None => {
                    return self.fail_at(start, ParseError::UnterminatedString);
                },
            };
            match state {
                StringState::Normal => {
                    if c == '"' {
                        return Ok(text);
                    } else if c == '\\' {
                        state = StringState::Escaped;
                    } else {
                        text.push(c);
                    }
                },
                StringState::Escaped => {
                    if c == 'u' {
                        state = StringState::Unicode { count: 0, code: 0 };
                    } else {
                        match short_escape_of(c) {
                            Some(e) => {
                                text.push(e);
                                state = StringState::Normal;
                            },
                            None => {
                                return self.fail_at(start, ParseError::InvalidEscape { ch: c });
                            },
                        }
                    }
                },
                StringState::Unicode { count, code } => {
                    let digit: u32 = match hex_digit_value(c) {
                        Some(d) => d,
                        None => {
                            return self.fail_at(start, ParseError::InvalidUnicodeEscape);
                        },
                    };
                    let joined: u32 = code * 16 + digit;
                    if count < 3 {
                        state = StringState::Unicode { count: count + 1, code: joined };
                    } else {
                        assert(scan_hex(s, i - 3, 4, 0) == Ok::<nat, Failure>(joined as nat)) by {
                            assert(scan_hex(s, i + 1, 0, joined as nat) == Ok::<nat, Failure>(
                                joined as nat,
                            ));
                            assert(scan_hex(s, i, 1, code as nat) == scan_hex(
                                s,
                                i + 1,
                                0,
                                joined as nat,
                            ));
                        }
                        match char::from_u32(joined) {
                            Some(decoded) => {
                                text.push(decoded);
                                state = StringState::Normal;
                            },
                            None => {
                                return self.fail_at(start, ParseError::InvalidUnicodeEscape);
                            },
                        }
                    }
                },
            }
        }
    }
}

impl JSONString {
    /// Reads a string whose opening quote stands just before the cursor, up
    /// to and including the closing quote.
    pub fn parse_string(&mut self) -> (r: Result<JSONTYPE, ParseError>)
        ensures
            reads(
                old(self)@,
                final(self)@,
                r,
                scan_string_value(old(self)@.input, old(self)@.position),
            ),
    {
        match self.read_string() {
            Ok(text) => Ok(JSONTYPE::String(text)),
            Err(e) => Err(e),
        }
    }

    /// Reads the longest run of number characters at the cursor, which must
    /// be a decimal literal.
    fn read_number(&mut self) -> (r: Result<String, ParseError>)
        ensures
            reads_text(
                old(self)@,
                final(self)@,
                r,
                scan_number(old(self)@.input, old(self)@.position),
            ),
            r is Ok ==> decimal_literal(r->Ok_0@),
    {
        proof {
            use_type_invariant(&*self);
        }
        let start: usize = self.index;
        let ghost s = self.data@;
        let mut text = String::new();
        while self.index < self.data.len() && is_number_char(self.data[self.index])
            invariant
                self.data@ == s,
                self.depth == old(self).depth,
                start <= self.index <= s.len(),
                number_end(s, self.index as int) == number_end(s, start as int),
                text@ == s.subrange(start as int, self.index as int),
            decreases s.len() - self.index,
        {
            text.push(self.data[self.index]);
            self.index = self.index + 1;
            assert(text@ =~= s.subrange(start as int, self.index as int));
        }
        if is_decimal_literal(slice_subrange(self.data.as_slice(), start, self.index)) {
            Ok(text)
        } else {
            self.fail_at(start, ParseError::InvalidNumber { text })
        }
    }

    /// Reads a number at the cursor: the longest run of digits, `.`, `e`,
    /// `E`, `+` and `-`, which must be a decimal literal as a whole.
    pub fn parse_number(&mut self) -> (r: Result<JSONTYPE, ParseError>)
        ensures
            reads(
                old(self)@,
                final(self)@,
                r,
                scan_number_value(old(self)@.input, old(self)@.position),
            ),
    {
        match self.read_number() {
            Ok(text) => Ok(JSONTYPE::Number(text)),
            Err(e) => Err(e),
        }
    }
}

impl JSONString {
    /// Reads one value at the cursor, after any whitespace: a keyword, a
    /// string, a number that starts with a digit, an object or an array.
    pub fn parse_value(&mut self) -> (r: Result<JSONTYPE, ParseError>)
        ensures
            reads(
                old(self)@,
                final(self)@,
                r,
                scan_value(old(self)@.input, old(self)@.position, old(self)@.depth),
            ),
        decreases old(self)@.input.len() - old(self)@.position, 0int,
    {
        proof {
            use_type_invariant(&*self);
            lemma_after_whitespace(self.data@, self.index as int);
        }
        let start: usize = self.index;
        self.skip_whitespace();
        let c = match self.peek() {
            Some(c) => c,
            None => {
                return self.fail_at(start, ParseError::UnexpectedEndOfInput);
            },
        };
        let r = if c == 'n' {
            self.parse_null()
        } else if c == 't' || c == 'f' {
            self.parse_bool()
        } else if c == '"' {
            let _ = self.next();
            self.parse_string()
        } else if c == '{' {
            let _ = self.next();
            self.parse_object()
        } else if c == '[' {
            let _ = self.next();
            self.parse_array()
        } else if is_decimal_digit(c) {
            self.parse_number()
        } else {
            Err(ParseError::UnexpectedCharacter { at: self.index })
        };
        match r {
            Ok(value) => Ok(value),
            Err(e) => self.fail_at(start, e),
        }
    }

    /// Reads an object whose opening brace stands just before the cursor,
    /// up to and including the closing brace. Commas between members may be
    /// left out, doubled, or stand before the first and behind the last
    /// member; a key that comes again replaces the earlier member.
    pub fn parse_object(&mut self) -> (r: Result<JSONTYPE, ParseError>)
        ensures
            reads(
                old(self)@,
                final(self)@,
                r,
                scan_object(old(self)@.input, old(self)@.position, old(self)@.depth),
            ),
        decreases old(self)@.input.len() - old(self)@.position, 2int,
    {
        proof {
            use_type_invariant(&*self);
        }
        if self.depth == 0 {
            return Err(ParseError::NestingTooDeep);
        }
        let start: usize = self.index;
        self.depth = self.depth - 1;
        let r = self.parse_members();
        proof {
            use_type_invariant(&*self);
        }
        self.depth = self.depth + 1;
        match r {
            Ok(value) => Ok(value),
            Err(e) => self.fail_at(start, e),
        }
    }

    /// Reads the members of an object up to and including its closing brace.
    /// On a failure the cursor is left where the failure was met.
    fn parse_members(&mut self) -> (r: Result<JSONTYPE, ParseError>)
        ensures
            final(self)@.input == old(self)@.input,
            final(self)@.depth == old(self)@.depth,
            match scan_members(
                old(self)@.input,
                old(self)@.position,
                old(self)@.depth,
                Map::empty(),
            ) {
                Ok((value, next)) => {
                    &&& r matches Ok(v)
                    &&& v@ == value
                    &&& v.well_formed()
                    &&& final(self)@.position == next
                },
                Err(failure) => r matches Err(e) && e@ == failure,
            },
        decreases old(self)@.input.len() - old(self)@.position, 1int,
    {
        proof {
            use_type_invariant(&*self);
        }
        let ghost s = self.data@;
        let ghost depth = self.depth as nat;
        let ghost start = self.index as int;
        let ghost goal = scan_members(s, start, depth, Map::empty());
        let mut entries: Vec<(String, JSONTYPE)> = Vec::new();
        loop
            invariant
                self.data@ == s,
                self.depth == depth,
                old(self)@.input == s,
                old(self)@.depth == depth,
                old(self)@.position == start,
                start <= self.index <= s.len(),
                distinct_keys(entries@),
                forall|k: int| 0 <= k < entries@.len() ==> (#[trigger] entries@[k]).1.well_formed(),
                goal == scan_members(s, start, depth, Map::empty()),
                scan_members(s, self.index as int, depth, members_view(entries@)) == goal,
            decreases s.len() - self.index,
        {
            proof {
                lemma_after_whitespace(s, self.index as int);
            }
            self.skip_whitespace();
            let c = match self.next() {
                Some(c) => c,
                None => {
                    return Err(ParseError::UnterminatedObject);
                },
            };
            if c == '}' {
                return Ok(JSONTYPE::Object(entries));
            } else if c != ',' {
                proof {
                    lemma_scan_string_from_advances(s, self.index as int, Seq::empty());
                }
                let key = match self.read_string() {
                    Ok(key) => key,
                    Err(e) => {
                        return Err(e);
                    },
                };
                proof {
                    lemma_after_whitespace(s, self.index as int);
                }
                self.skip_whitespace();
                let colon: usize = self.index;
                match self.next() {
                    None => {
                        return Err(ParseError::UnexpectedEndOfInput);
                    },
                    Some(c) => {
                        if c != ':' {
                            return Err(ParseError::UnexpectedCharacter { at: colon });
                        }
                    },
                }
                proof {
                    lemma_scan_value_advances(s, colon + 1, depth);
                }
                let value = match self.parse_value() {
                    Ok(value) => value,
                    Err(e) => {
                        return Err(e);
                    },
                };
                let ghost before = entries@;
                let ghost name = key@;
                insert_member(&mut entries, key, value);
                proof {
                    lemma_last_key_index_is_last(before, name);
                    assert forall|k: int| 0 <= k < entries@.len() implies (#[trigger] entries@[k])
                        .1.well_formed() by {
                        if k < before.len() {
                            assert(before[k].1.well_formed());
                        }
                    }
                }
            }
        }
    }

    /// Reads an array whose opening bracket stands just before the cursor,
    /// up to and including the closing bracket. Commas between elements may
    /// be left out, doubled, or stand before the first and behind the last
    /// element.
    pub fn parse_array(&mut self) -> (r: Result<JSONTYPE, ParseError>)
        ensures
            reads(
                old(self)@,
                final(self)@,
                r,
                scan_array(old(self)@.input, old(self)@.position, old(self)@.depth),
            ),
        decreases old(self)@.input.len() - old(self)@.position, 2int,
    {
        proof {
            use_type_invariant(&*self);
        }
        if self.depth == 0 {
            return Err(ParseError::NestingTooDeep);
        }
        let start: usize = self.index;
        self.depth = self.depth - 1;
        let r = self.parse_elements();
        proof {
            use_type_invariant(&*self);
        }
        self.depth = self.depth + 1;
        match r {
            Ok(value) => Ok(value),
            Err(e) => self.fail_at(start, e),
        }
    }

    /// Reads the elements of an array up to and including its closing
    /// bracket. On a failure the cursor is left where the failure was met.
    fn parse_elements(&mut self) -> (r: Result<JSONTYPE, ParseError>)
        ensures
            final(self)@.input == old(self)@.input,
            final(self)@.depth == old(self)@.depth,
            match scan_elements(
                old(self)@.input,
                old(self)@.position,
                old(self)@.depth,
                Seq::empty(),
            ) {
                Ok((value, next)) => {
                    &&& r matches Ok(v)
                    &&& v@ == value
                    &&& v.well_formed()
                    &&& final(self)@.position == next
                },
                Err(failure) => r matches Err(e) && e@ == failure,
            },
        decreases old(self)@.input.len() - old(self)@.position, 1int,
    {
        proof {
            use_type_invariant(&*self);
        }
        let ghost s = self.data@;
        let ghost depth = self.depth as nat;
        let ghost start = self.index as int;
        let ghost goal = scan_elements(s, start, depth, Seq::empty());
        let mut items: Vec<JSONTYPE> = Vec::new();
        loop
            invariant
                self.data@ == s,
                self.depth == depth,
                old(self)@.input == s,
                old(self)@.depth == depth,
                old(self)@.position == start,
                start <= self.index <= s.len(),
                forall|k: int| 0 <= k < items@.len() ==> (#[trigger] items@[k]).well_formed(),
                goal == scan_elements(s, start, depth, Seq::empty()),
                scan_elements(s, self.index as int, depth, elements_view(items@)) == goal,
            decreases s.len() - self.index,
        {
            proof {
                lemma_after_whitespace(s, self.index as int);
            }
            self.skip_whitespace();
            let c = match self.peek() {
                Some(c) => c,
                None => {
                    return Err(ParseError::UnterminatedArray);
                },
            };
            if c == ']' {
                let _ = self.next();
                return Ok(JSONTYPE::Array(items));
            } else if c == ',' {
                let _ = self.next();
            } else {
                proof {
                    lemma_scan_value_advances(s, self.index as int, depth);
                }
                let value = match self.parse_value() {
                    Ok(value) => value,
                    Err(e) => {
                        return Err(e);
                    },
                };
                proof {
                    assert(items@.push(value).drop_last() =~= items@);
                }
                items.push(value);
            }
        }
    }

    /// Reads a document: after any whitespace, an object or an array. What
    /// follows the document is not looked at.
    pub fn parse(&mut self) -> (r: Result<JSONTYPE, ParseError>)
        ensures
            reads(
                old(self)@,
                final(self)@,
                r,
                scan_document(old(self)@.input, old(self)@.position, old(self)@.depth),
            ),
    {
        proof {
            use_type_invariant(&*self);
            lemma_after_whitespace(self.data@, self.index as int);
        }
        let start: usize = self.index;
        self.skip_whitespace();
        let at: usize = self.index;
        let r = match self.next() {
            None => Err(ParseError::UnexpectedEndOfInput),
            Some(c) => {
                if c == '{' {
                    self.parse_object()
                } else if c == '[' {
                    self.parse_array()
                } else {
                    Err(ParseError::UnexpectedCharacter { at })
                }
            },
        };
        match r {
            Ok(value) => Ok(value),
            Err(e) => self.fail_at(start, e),
        }
    }
}

} // verus!
