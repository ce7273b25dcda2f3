//! Every document of the grammar is read as the value it denotes.

use vstd::prelude::*;
use crate::chars::{hex_value, number_char, short_escape, whitespace};
use crate::error::{Failure, Literal};
use crate::grammar::{
    blank,
    after_whitespace,
    lemma_after_blank,
    lemma_after_whitespace,
    lemma_after_whitespace_run,
    lemma_number_end_run,
    lemma_occurs_at_concat,
    lemma_occurs_at_index,
    lemma_scan_value_after_whitespace,
    occurs_at,
    scan_document,
    scan_elements,
    scan_hex,
    scan_members,
    scan_string,
    scan_string_from,
    scan_value,
};
use crate::syntax::{
    entries_fit,
    entries_text,
    entries_value,
    entries_well_formed,
    items_fit,
    items_text,
    items_value,
    items_well_formed,
    pieces_text,
    pieces_value,
    pieces_well_formed,
    Entry,
    Item,
    Piece,
    Syntax,
};
use crate::value::Json;

verus! {

/// The written pieces of a string, followed by a quote, are read as the
/// characters they stand for.
pub proof fn lemma_scan_pieces(pieces: Seq<Piece>, k: int, s: Seq<char>, i: int, acc: Seq<char>)
    requires
        pieces_well_formed(pieces),
        0 <= k <= pieces.len(),
        occurs_at(s, i, pieces_text(pieces, k) + seq!['"']),
    ensures
        scan_string_from(s, i, acc) == Ok::<(Seq<char>, int), Failure>(
            (pieces_value(pieces, k, acc), i + pieces_text(pieces, k).len() + 1),
        ),
    decreases pieces.len() - k,
{
    let quote = seq!['"'];
    if k == pieces.len() {
        lemma_occurs_at_index(s, i, pieces_text(pieces, k) + quote, 0);
    } else {
        let piece = pieces[k];
        let rest = pieces_text(pieces, k + 1);
        assert(piece.well_formed());
        assert(pieces_text(pieces, k) + quote =~= piece.text() + (rest + quote));
        lemma_occurs_at_concat(s, i, piece.text(), rest + quote);
        match piece {
            Piece::Plain(c) => {
                lemma_occurs_at_index(s, i, piece.text(), 0);
                lemma_scan_pieces(pieces, k + 1, s, i + 1, acc.push(c));
            },
            Piece::Short(c) => {
                lemma_occurs_at_index(s, i, piece.text(), 0);
                lemma_occurs_at_index(s, i, piece.text(), 1);
                lemma_scan_pieces(pieces, k + 1, s, i + 2, acc.push(short_escape(c)->0));
            },
            Piece::Unicode(a, b, c, d) => {
                lemma_occurs_at_index(s, i, piece.text(), 0);
                lemma_occurs_at_index(s, i, piece.text(), 1);
                lemma_occurs_at_index(s, i, piece.text(), 2);
                lemma_occurs_at_index(s, i, piece.text(), 3);
                lemma_occurs_at_index(s, i, piece.text(), 4);
                lemma_occurs_at_index(s, i, piece.text(), 5);
                let n1 = hex_value(a)->0;
                let n2 = n1 * 16 + hex_value(b)->0;
                let n3 = n2 * 16 + hex_value(c)->0;
                let n4 = n3 * 16 + hex_value(d)->0;
                assert(scan_hex(s, i + 6, 0, n4) == Ok::<nat, Failure>(n4));
                assert(scan_hex(s, i + 5, 1, n3) == Ok::<nat, Failure>(n4));
                assert(scan_hex(s, i + 4, 2, n2) == Ok::<nat, Failure>(n4));
                assert(scan_hex(s, i + 3, 3, n1) == Ok::<nat, Failure>(n4));
                assert(scan_hex(s, i + 2, 4, 0) == Ok::<nat, Failure>(n4));
                assert(n4 == Piece::code(a, b, c, d));
                lemma_scan_pieces(pieces, k + 1, s, i + 6, acc.push(n4 as char));
            },
        }
    }
}

/// A value as written starts with its first character.
pub proof fn lemma_text_first(v: Syntax)
    requires
        v.well_formed(),
    ensures
        v.text().len() > 0,
        v.text()[0] == v.first(),
{
}

/// An item as written starts with its first character, which continues no
/// number unless the item is a number.
pub proof fn lemma_item_first(item: Item)
    requires
        item.well_formed(),
    ensures
        item.text().len() > 0,
        item.text()[0] == item.first(),
        !item.is_number() ==> !number_char(item.first()),
{
    if let Item::Value(v) = item {
        lemma_text_first(v);
    }
}

/// An entry as written starts with its first character.
pub proof fn lemma_entry_first(entry: Entry)
    requires
        entry.well_formed(),
    ensures
        entry.text().len() > 0,
        entry.text()[0] == entry.first(),
{
}

/// A value as written is read as the value it denotes, and reading ends
/// behind its text. The text of a number must not be followed by a number
/// character.
pub proof fn lemma_scan_value_text(v: Syntax, s: Seq<char>, i: int, depth: nat)
    requires
        v.well_formed(),
        v.fits(depth),
        occurs_at(s, i, v.text()),
        v is Number ==> i + v.text().len() == s.len() || !number_char(s[i + v.text().len()]),
    ensures
        scan_value(s, i, depth) == Ok::<(Json, int), Failure>((v.value(), i + v.text().len())),
    decreases v, 0int,
{
    lemma_text_first(v);
    lemma_occurs_at_index(s, i, v.text(), 0);
    lemma_after_whitespace_run(s, i, 0);
    match v {
        Syntax::Null => {
            assert(v.text() == Literal::Null.text());
        },
        Syntax::True => {
            assert(v.text() == Literal::True.text());
        },
        Syntax::False => {
            assert(v.text() == Literal::False.text());
        },
        Syntax::Number(t) => {
            assert forall|k: int| i <= k < i + t.len() implies number_char(#[trigger] s[k]) by {
                lemma_occurs_at_index(s, i, t, k - i);
                assert(number_char(t[k - i]));
            }
            lemma_number_end_run(s, i, t.len());
        },
        Syntax::String(pieces) => {
            let quote = seq!['"'];
            assert(v.text() =~= quote + (pieces_text(pieces, 0) + quote));
            lemma_occurs_at_concat(s, i, quote, pieces_text(pieces, 0) + quote);
            lemma_scan_pieces(pieces, 0, s, i + 1, Seq::empty());
        },
        Syntax::Array(items) => {
            let open = seq!['['];
            let close = seq![']'];
            assert(v.text() =~= open + (items_text(items, 0) + close));
            lemma_occurs_at_concat(s, i, open, items_text(items, 0) + close);
            lemma_scan_items_text(items, 0, s, i + 1, (depth - 1) as nat, Seq::empty());
        },
        Syntax::Object(entries) => {
            let open = seq!['{'];
            let close = seq!['}'];
            assert(v.text() =~= open + (entries_text(entries, 0) + close));
            lemma_occurs_at_concat(s, i, open, entries_text(entries, 0) + close);
            lemma_scan_entries_text(entries, 0, s, i + 1, (depth - 1) as nat, Map::empty());
        },
    }
}

/// The items of an array as written, followed by the closing bracket, are
/// read as the elements among them, in their order.
pub proof fn lemma_scan_items_text(
    items: Seq<Item>,
    k: int,
    s: Seq<char>,
    i: int,
    depth: nat,
    acc: Seq<Json>,
)
    requires
        items_well_formed(items),
        items_fit(items, depth),
        0 <= k <= items.len(),
        occurs_at(s, i, items_text(items, k) + seq![']']),
    ensures
        scan_elements(s, i, depth, acc) == Ok::<(Json, int), Failure>(
            (Json::Array(items_value(items, k, acc)), i + items_text(items, k).len() + 1),
        ),
    decreases items, items.len() - k,
{
    let close = seq![']'];
    lemma_occurs_at_index(s, i, items_text(items, k) + close, 0);
    if k == items.len() {
        lemma_after_whitespace_run(s, i, 0);
    } else {
        let item = items[k];
        let rest = items_text(items, k + 1);
        assert(item.well_formed());
        assert(item.fits(depth));
        lemma_item_first(item);
        assert(items_text(items, k) + close =~= item.text() + (rest + close));
        lemma_occurs_at_concat(s, i, item.text(), rest + close);
        let next = i + item.text().len();
        match item {
            Item::Blank(c) => {
                lemma_scan_items_text(items, k + 1, s, next, depth, acc);
                lemma_after_whitespace(s, next);
            },
            Item::Comma => {
                lemma_after_whitespace_run(s, i, 0);
                lemma_scan_items_text(items, k + 1, s, next, depth, acc);
            },
            Item::Value(v) => {
                lemma_after_whitespace_run(s, i, 0);
                lemma_occurs_at_index(s, next, rest + close, 0);
                if k + 1 < items.len() {
                    assert(items[k + 1].well_formed());
                    lemma_item_first(items[k + 1]);
                    assert((rest + close)[0] == items[k + 1].text()[0]);
                }
                lemma_scan_value_text(v, s, i, depth);
                lemma_scan_items_text(items, k + 1, s, next, depth, acc.push(v.value()));
            },
        }
    }
}

/// How far behind the start of a member its colon stands.
pub open spec fn colon_offset(entry: Entry) -> int
    recommends
        entry is Member,
{
    (1 + pieces_text(entry->key, 0).len() + 1 + entry->before_colon.len()) as int
}

/// How far behind the start of a member its value starts.
pub open spec fn value_offset(entry: Entry) -> int
    recommends
        entry is Member,
{
    colon_offset(entry) + 1 + entry->before_value.len()
}

/// Where the parts of a member stand, and what reading its key gives.
pub proof fn lemma_member_layout(entry: Entry, s: Seq<char>, i: int)
    requires
        entry is Member,
        entry.well_formed(),
        occurs_at(s, i, entry.text()),
    ensures
        after_whitespace(s, i) == i,
        s[i] == entry->open,
        scan_string(s, i + 1) == Ok::<(Seq<char>, int), Failure>(
            (
                pieces_value(entry->key, 0, Seq::empty()),
                i + colon_offset(entry) - entry->before_colon.len(),
            ),
        ),
        after_whitespace(s, i + colon_offset(entry) - entry->before_colon.len()) == i
            + colon_offset(entry),
        i + colon_offset(entry) < s.len(),
        s[i + colon_offset(entry)] == ':',
        after_whitespace(s, i + colon_offset(entry) + 1) == i + value_offset(entry),
        occurs_at(s, i + value_offset(entry), entry->value.text()),
        i + value_offset(entry) + entry->value.text().len() == i + entry.text().len(),
{
    let open = entry->open;
    let key = entry->key;
    let before_colon = entry->before_colon;
    let before_value = entry->before_value;
    let value = entry->value;
    let quote = seq!['"'];
    let colon = seq![':'];
    let key_text = pieces_text(key, 0) + quote;
    let tail3 = before_value + value.text();
    let tail2 = colon + tail3;
    let tail1 = before_colon + tail2;
    let tail0 = key_text + tail1;
    assert(entry.text() =~= seq![open] + tail0);
    lemma_occurs_at_concat(s, i, seq![open], tail0);
    lemma_occurs_at_index(s, i, seq![open], 0);
    lemma_after_whitespace_run(s, i, 0);
    let at_key = i + 1;
    lemma_occurs_at_concat(s, at_key, key_text, tail1);
    lemma_scan_pieces(key, 0, s, at_key, Seq::empty());
    let behind_key = at_key + key_text.len();
    lemma_occurs_at_concat(s, behind_key, before_colon, tail2);
    let at_colon = behind_key + before_colon.len();
    lemma_occurs_at_concat(s, at_colon, colon, tail3);
    lemma_occurs_at_index(s, at_colon, colon, 0);
    lemma_after_blank(s, behind_key, before_colon);
    lemma_occurs_at_concat(s, at_colon + 1, before_value, value.text());
    let at_value = at_colon + 1 + before_value.len();
    lemma_text_first(value);
    lemma_occurs_at_index(s, at_value, value.text(), 0);
    lemma_after_blank(s, at_colon + 1, before_value);
}

/// The entries of an object as written, followed by the closing brace, are
/// read as the members among them, a later member replacing an earlier one
/// that has the same key.
pub proof fn lemma_scan_entries_text(
    entries: Seq<Entry>,
    k: int,
    s: Seq<char>,
    i: int,
    depth: nat,
    acc: Map<Seq<char>, Json>,
)
    requires
        entries_well_formed(entries),
        entries_fit(entries, depth),
        0 <= k <= entries.len(),
        occurs_at(s, i, entries_text(entries, k) + seq!['}']),
    ensures
        scan_members(s, i, depth, acc) == Ok::<(Json, int), Failure>(
            (Json::Object(entries_value(entries, k, acc)), i + entries_text(entries, k).len() + 1),
        ),
    decreases entries, entries.len() - k,
{
    let close = seq!['}'];
    lemma_occurs_at_index(s, i, entries_text(entries, k) + close, 0);
    if k == entries.len() {
        lemma_after_whitespace_run(s, i, 0);
    } else {
        let entry = entries[k];
        let rest = entries_text(entries, k + 1);
        assert(entry.well_formed());
        assert(entry.fits(depth));
        lemma_entry_first(entry);
        assert(entries_text(entries, k) + close =~= entry.text() + (rest + close));
        lemma_occurs_at_concat(s, i, entry.text(), rest + close);
        let next = i + entry.text().len();
        match entry {
            Entry::Blank(c) => {
                lemma_scan_entries_text(entries, k + 1, s, next, depth, acc);
                lemma_after_whitespace(s, next);
            },
            Entry::Comma => {
                lemma_after_whitespace_run(s, i, 0);
                lemma_scan_entries_text(entries, k + 1, s, next, depth, acc);
            },
            Entry::Member { open, key, before_colon, before_value, value } => {
                lemma_member_layout(entry, s, i);
                let at_colon = i + colon_offset(entry);
                let at_value = i + value_offset(entry);
                lemma_scan_value_after_whitespace(s, at_colon + 1, depth);
                lemma_occurs_at_index(s, next, rest + close, 0);
                if k + 1 < entries.len() {
                    assert(entries[k + 1].well_formed());
                    lemma_entry_first(entries[k + 1]);
                    assert((rest + close)[0] == entries[k + 1].text()[0]);
                }
                lemma_scan_value_text(value, s, at_value, depth);
                lemma_scan_entries_text(
                    entries,
                    k + 1,
                    s,
                    next,
                    depth,
                    acc.insert(pieces_value(key, 0, Seq::empty()), value.value()),
                );
            },
        }
    }
}

/// Every document of the grammar is read as the value it denotes.
///
/// A document is an array or an object, written in any of the ways that
/// [`Syntax`] describes and nested no deeper than the reader allows. It may
/// stand behind whitespace and before any text whatever. Reading it from
/// the start of the whitespace gives the value it denotes and ends just
/// behind the document, whatever stands before the place where reading starts.
pub proof fn lemma_document_is_read(
    doc: Syntax,
    before: Seq<char>,
    lead: Seq<char>,
    rest: Seq<char>,
    depth: nat,
)
    requires
        doc is Array || doc is Object,
        doc.well_formed(),
        doc.fits(depth),
        blank(lead),
    ensures
        scan_document(before + lead + doc.text() + rest, before.len() as int, depth) == Ok::<
            (Json, int),
            Failure,
        >((doc.value(), (before.len() + lead.len() + doc.text().len()) as int)),
{
    let s = before + lead + doc.text() + rest;
    let from = before.len() as int;
    let at = from + lead.len();
    assert(s.subrange(from, at) =~= lead);
    assert(s.subrange(at, at + doc.text().len()) =~= doc.text());
    lemma_text_first(doc);
    lemma_occurs_at_index(s, at, doc.text(), 0);
    lemma_after_blank(s, from, lead);
    lemma_after_whitespace_run(s, at, 0);
    lemma_scan_value_text(doc, s, at, depth);
}

} // verus!
