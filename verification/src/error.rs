//! The ways in which reading a document can fail.

use vstd::prelude::*;

verus! {

/// One of the three keyword literals of the grammar.
#[derive(Clone, Copy, Debug, PartialEq, Eq, Structural)]
pub enum Literal {
    Null,
    True,
    False,
}

impl Literal {
    /// How the keyword is spelled.
    pub open spec fn text(self) -> Seq<char> {
        match self {
            Literal::Null => seq!['n', 'u', 'l', 'l'],
            Literal::True => seq!['t', 'r', 'u', 'e'],
            Literal::False => seq!['f', 'a', 'l', 's', 'e'],
        }
    }

    /// How the keyword is spelled.
    pub fn as_str(self) -> (r: &'static str)
        ensures
            r@ == self.text(),
    {
        proof {
            reveal_strlit("null");
            reveal_strlit("true");
            reveal_strlit("false");
        }
        let r = match self {
            Literal::Null => "null",
            Literal::True => "true",
            Literal::False => "false",
        };
        assert(r@ =~= self.text());
        r
    }
}

/// The first problem met while scanning a text from left to right.
#[derive(Debug, PartialEq, Eq)]
pub enum ParseError {
    /// The input ended where a value, or the `:` of a member, had to follow.
    UnexpectedEndOfInput,
    /// The character at index `at` can start nothing that is allowed there.
    UnexpectedCharacter { at: usize },
    /// The input starts like the keyword `expected` but does not spell it out.
    InvalidLiteral { expected: Literal },
    /// A run of number characters that is no floating-point literal.
    InvalidNumber { text: String },
    /// A backslash followed by a character that starts no escape.
    InvalidEscape { ch: char },
    /// A `\u` escape with a digit that is not hexadecimal, or one that names
    /// a surrogate code point.
    InvalidUnicodeEscape,
    /// The input ended inside a string.
    UnterminatedString,
    /// The input ended inside an object.
    UnterminatedObject,
    /// The input ended inside an array.
    UnterminatedArray,
    /// The document nests arrays and objects more deeply than the reader allows.
    NestingTooDeep,
}

/// The mathematical counterpart of [`ParseError`]: positions are unbounded
/// and the text of a bad number is a sequence of characters.
pub enum Failure {
    UnexpectedEndOfInput,
    UnexpectedCharacter { at: int },
    InvalidLiteral { expected: Literal },
    InvalidNumber { text: Seq<char> },
    InvalidEscape { ch: char },
    InvalidUnicodeEscape,
    UnterminatedString,
    UnterminatedObject,
    UnterminatedArray,
    NestingTooDeep,
}

impl View for ParseError {
    type V = Failure;

    open spec fn view(&self) -> Failure {
        match self {
            ParseError::UnexpectedEndOfInput => Failure::UnexpectedEndOfInput,
            ParseError::UnexpectedCharacter { at } => Failure::UnexpectedCharacter { at: *at as int },
            ParseError::InvalidLiteral { expected } => Failure::InvalidLiteral {
                expected: *expected,
            },
            ParseError::InvalidNumber { text } => Failure::InvalidNumber { text: text@ },
            ParseError::InvalidEscape { ch } => Failure::InvalidEscape { ch: *ch },
            ParseError::InvalidUnicodeEscape => Failure::InvalidUnicodeEscape,
            ParseError::UnterminatedString => Failure::UnterminatedString,
            ParseError::UnterminatedObject => Failure::UnterminatedObject,
            ParseError::UnterminatedArray => Failure::UnterminatedArray,
            ParseError::NestingTooDeep => Failure::NestingTooDeep,
        }
    }
}

} // verus!
