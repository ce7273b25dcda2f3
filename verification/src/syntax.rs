//! Documents as they are written.
//!
//! A [`Syntax`] is a value together with every choice that writing it down
//! leaves open: which characters of a string are escaped and how, where
//! whitespace stands, and where commas stand or are left out. Its
//! [`text`](Syntax::text) is the document, its [`value`](Syntax::value) is
//! what the document denotes. The texts of the well-formed syntax trees are
//! the documents of the grammar.

use vstd::prelude::*;
use crate::chars::{decimal_digit, hex_value, number_char, scalar_value, short_escape, whitespace};
use crate::grammar::blank;
use crate::number::decimal_literal;
use crate::value::Json;

verus! {

/// One character of a string, as written.
pub enum Piece {
    /// The character itself.
    Plain(char),
    /// A backslash and one character.
    Short(char),
    /// `\u` and four hexadecimal digits.
    Unicode(char, char, char, char),
}

/// A value, as written.
pub enum Syntax {
    Null,
    True,
    False,
    /// The literal of a number.
    Number(Seq<char>),
    /// What stands between the quotes of a string.
    String(Seq<Piece>),
    /// What stands between the brackets of an array.
    Array(Seq<Item>),
    /// What stands between the braces of an object.
    Object(Seq<Entry>),
}

/// What can stand between the brackets of an array.
pub enum Item {
    /// One whitespace character.
    Blank(char),
    Comma,
    /// An element.
    Value(Syntax),
}

/// What can stand between the braces of an object.
pub enum Entry {
    /// One whitespace character.
    Blank(char),
    Comma,
    /// A member: the character that opens the key (as a rule a quote), the
    /// key up to its closing quote, whitespace, a colon, whitespace, and the
    /// value.
    Member { open: char, key: Seq<Piece>, before_colon: Seq<char>, before_value: Seq<char>, value: Syntax },
}

impl Piece {
    /// The number that the four digits of a `\u` escape spell.
    pub open spec fn code(a: char, b: char, c: char, d: char) -> nat
        recommends
            hex_value(a) is Some,
            hex_value(b) is Some,
            hex_value(c) is Some,
            hex_value(d) is Some,
    {
        ((hex_value(a)->0 * 16 + hex_value(b)->0) * 16 + hex_value(c)->0) * 16 + hex_value(d)->0
    }

    /// A plain character is neither a quote nor a backslash; a short escape
    /// is one of the seven that exist; the digits of a `\u` escape are
    /// hexadecimal and name a character.
    pub open spec fn well_formed(self) -> bool {
        match self {
            Piece::Plain(c) => c != '"' && c != '\\',
            Piece::Short(c) => short_escape(c) is Some,
            Piece::Unicode(a, b, c, d) => {
                &&& hex_value(a) is Some
                &&& hex_value(b) is Some
                &&& hex_value(c) is Some
                &&& hex_value(d) is Some
                &&& scalar_value(Piece::code(a, b, c, d))
            },
        }
    }

    pub open spec fn text(self) -> Seq<char> {
        match self {
            Piece::Plain(c) => seq![c],
            Piece::Short(c) => seq!['\\', c],
            Piece::Unicode(a, b, c, d) => seq!['\\', 'u', a, b, c, d],
        }
    }

    /// The character that the piece stands for.
    pub open spec fn value(self) -> char {
        match self {
            Piece::Plain(c) => c,
            Piece::Short(c) => short_escape(c)->0,
            Piece::Unicode(a, b, c, d) => Piece::code(a, b, c, d) as char,
        }
    }
}

/// The pieces from the `k`-th on, as written.
pub open spec fn pieces_text(pieces: Seq<Piece>, k: int) -> Seq<char>
    decreases pieces.len() - k,
{
    if 0 <= k < pieces.len() {
        pieces[k].text() + pieces_text(pieces, k + 1)
    } else {
        Seq::empty()
    }
}

/// The characters `acc`, followed by those that the pieces from the `k`-th
/// on stand for.
pub open spec fn pieces_value(pieces: Seq<Piece>, k: int, acc: Seq<char>) -> Seq<char>
    decreases pieces.len() - k,
{
    if 0 <= k < pieces.len() {
        pieces_value(pieces, k + 1, acc.push(pieces[k].value()))
    } else {
        acc
    }
}

pub open spec fn pieces_well_formed(pieces: Seq<Piece>) -> bool {
    forall|k: int| 0 <= k < pieces.len() ==> (#[trigger] pieces[k]).well_formed()
}

impl Syntax {
    /// The rules that make a syntax tree a document of the grammar.
    ///
    /// A number starts with a digit and is a decimal literal. Whatever
    /// follows a number inside an array or an object must not go on with a
    /// number character, or the two would be read as one number: so an
    /// element that is a number is not directly followed by another, and a
    /// member whose value is a number is not directly followed by a member
    /// that a number character opens.
    pub open spec fn well_formed(self) -> bool
        decreases self,
    {
        match self {
            Syntax::Number(t) => {
                &&& t.len() > 0
                &&& decimal_digit(t[0])
                &&& forall|k: int| 0 <= k < t.len() ==> number_char(#[trigger] t[k])
                &&& decimal_literal(t)
            },
            Syntax::String(pieces) => pieces_well_formed(pieces),
            Syntax::Array(items) => items_well_formed(items),
            Syntax::Object(entries) => entries_well_formed(entries),
            _ => true,
        }
    }

    /// The first character of the value as written.
    pub open spec fn first(self) -> char {
        match self {
            Syntax::Null => 'n',
            Syntax::True => 't',
            Syntax::False => 'f',
            Syntax::Number(t) => t[0],
            Syntax::String(_) => '"',
            Syntax::Array(_) => '[',
            Syntax::Object(_) => '{',
        }
    }

    /// Whether the value has at most `depth` levels of arrays and objects.
    pub open spec fn fits(self, depth: nat) -> bool
        decreases self,
    {
        match self {
            Syntax::Array(items) => depth > 0 && items_fit(items, (depth - 1) as nat),
            Syntax::Object(entries) => depth > 0 && entries_fit(entries, (depth - 1) as nat),
            _ => true,
        }
    }

    /// The value as written.
    pub open spec fn text(self) -> Seq<char>
        decreases self, 0int,
    {
        match self {
            Syntax::Null => seq!['n', 'u', 'l', 'l'],
            Syntax::True => seq!['t', 'r', 'u', 'e'],
            Syntax::False => seq!['f', 'a', 'l', 's', 'e'],
            Syntax::Number(t) => t,
            Syntax::String(pieces) => seq!['"'] + pieces_text(pieces, 0) + seq!['"'],
            Syntax::Array(items) => seq!['['] + items_text(items, 0) + seq![']'],
            Syntax::Object(entries) => seq!['{'] + entries_text(entries, 0) + seq!['}'],
        }
    }

    /// The value that the text denotes.
    pub open spec fn value(self) -> Json
        decreases self, 0int,
    {
        match self {
            Syntax::Null => Json::Null,
            Syntax::True => Json::Bool(true),
            Syntax::False => Json::Bool(false),
            Syntax::Number(t) => Json::Number(t),
            Syntax::String(pieces) => Json::String(pieces_value(pieces, 0, Seq::empty())),
            Syntax::Array(items) => Json::Array(items_value(items, 0, Seq::empty())),
            Syntax::Object(entries) => Json::Object(entries_value(entries, 0, Map::empty())),
        }
    }
}

impl Item {
    pub open spec fn well_formed(self) -> bool
        decreases self,
    {
        match self {
            Item::Blank(c) => whitespace(c),
            Item::Comma => true,
            Item::Value(v) => v.well_formed(),
        }
    }

    pub open spec fn fits(self, depth: nat) -> bool
        decreases self,
    {
        match self {
            Item::Value(v) => v.fits(depth),
            _ => true,
        }
    }

    /// Whether the item is an element that is a number.
    pub open spec fn is_number(self) -> bool {
        self matches Item::Value(v) && v is Number
    }

    /// The first character of the item as written.
    pub open spec fn first(self) -> char {
        match self {
            Item::Blank(c) => c,
            Item::Comma => ',',
            Item::Value(v) => v.first(),
        }
    }

    pub open spec fn text(self) -> Seq<char>
        decreases self, 0int,
    {
        match self {
            Item::Blank(c) => seq![c],
            Item::Comma => seq![','],
            Item::Value(v) => v.text(),
        }
    }
}

impl Entry {
    pub open spec fn well_formed(self) -> bool
        decreases self,
    {
        match self {
            Entry::Blank(c) => whitespace(c),
            Entry::Comma => true,
            Entry::Member { open, key, before_colon, before_value, value } => {
                &&& open != '}'
                &&& open != ','
                &&& !whitespace(open)
                &&& pieces_well_formed(key)
                &&& blank(before_colon)
                &&& blank(before_value)
                &&& value.well_formed()
            },
        }
    }

    pub open spec fn fits(self, depth: nat) -> bool
        decreases self,
    {
        match self {
            Entry::Member { value, .. } => value.fits(depth),
            _ => true,
        }
    }

    /// Whether the entry is a member whose value is a number.
    pub open spec fn ends_in_number(self) -> bool {
        self matches Entry::Member { value, .. } && value is Number
    }

    /// The first character of the entry as written.
    pub open spec fn first(self) -> char {
        match self {
            Entry::Blank(c) => c,
            Entry::Comma => ',',
            Entry::Member { open, .. } => open,
        }
    }

    pub open spec fn text(self) -> Seq<char>
        decreases self, 0int,
    {
        match self {
            Entry::Blank(c) => seq![c],
            Entry::Comma => seq![','],
            Entry::Member { open, key, before_colon, before_value, value } => seq![open]
                + pieces_text(key, 0) + seq!['"'] + before_colon + seq![':'] + before_value
                + value.text(),
        }
    }
}

/// Every item is well formed, and no number is directly followed by another.
pub open spec fn items_well_formed(items: Seq<Item>) -> bool
    decreases items,
{
    &&& forall|k: int| 0 <= k < items.len() ==> (#[trigger] items[k]).well_formed()
    &&& forall|k: int|
        0 <= k && k + 1 < items.len() && (#[trigger] items[k]).is_number() ==> !items[k
            + 1].is_number()
}

/// Every entry is well formed, and no member whose value is a number is
/// directly followed by a member that a number character opens.
pub open spec fn entries_well_formed(entries: Seq<Entry>) -> bool
    decreases entries,
{
    &&& forall|k: int| 0 <= k < entries.len() ==> (#[trigger] entries[k]).well_formed()
    &&& forall|k: int|
        0 <= k && k + 1 < entries.len() && (#[trigger] entries[k]).ends_in_number()
            ==> !number_char(entries[k + 1].first())
}

/// Every element has at most `depth` levels of arrays and objects.
pub open spec fn items_fit(items: Seq<Item>, depth: nat) -> bool
    decreases items,
{
    forall|k: int| 0 <= k < items.len() ==> (#[trigger] items[k]).fits(depth)
}

/// The value of every member has at most `depth` levels of arrays and objects.
pub open spec fn entries_fit(entries: Seq<Entry>, depth: nat) -> bool
    decreases entries,
{
    forall|k: int| 0 <= k < entries.len() ==> (#[trigger] entries[k]).fits(depth)
}

/// The items from the `k`-th on, as written.
pub open spec fn items_text(items: Seq<Item>, k: int) -> Seq<char>
    decreases items, items.len() - k,
{
    if 0 <= k < items.len() {
        items[k].text() + items_text(items, k + 1)
    } else {
        Seq::empty()
    }
}

/// The values `acc`, followed by the elements among the items from the
/// `k`-th on, in their order.
pub open spec fn items_value(items: Seq<Item>, k: int, acc: Seq<Json>) -> Seq<Json>
    decreases items, items.len() - k,
{
    if 0 <= k < items.len() {
        match items[k] {
            Item::Value(v) => items_value(items, k + 1, acc.push(v.value())),
            _ => items_value(items, k + 1, acc),
        }
    } else {
        acc
    }
}

/// The entries from the `k`-th on, as written.
pub open spec fn entries_text(entries: Seq<Entry>, k: int) -> Seq<char>
    decreases entries, entries.len() - k,
{
    if 0 <= k < entries.len() {
        entries[k].text() + entries_text(entries, k + 1)
    } else {
        Seq::empty()
    }
}

/// The map `acc`, with the members among the entries from the `k`-th on put
/// into it in their order: a later member replaces an earlier one that has
/// the same key.
pub open spec fn entries_value(entries: Seq<Entry>, k: int, acc: Map<Seq<char>, Json>) -> Map<
    Seq<char>,
    Json,
>
    decreases entries, entries.len() - k,
{
    if 0 <= k < entries.len() {
        match entries[k] {
            Entry::Member { key, value, .. } => entries_value(
                entries,
                k + 1,
                acc.insert(pieces_value(key, 0, Seq::empty()), value.value()),
            ),
            _ => entries_value(entries, k + 1, acc),
        }
    } else {
        acc
    }
}

} // verus!
