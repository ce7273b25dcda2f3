//! Whatever is read was written: where reading succeeds, the text that was
//! read is a document of the grammar, and the value is the one it denotes.
//!
//! Together with [`crate::theorems`] this makes the texts of the well-formed
//! syntax trees exactly the texts that are read with success.

use vstd::prelude::*;
use crate::chars::{hex_value, number_char, scalar_value, whitespace};
use crate::error::Failure;
use crate::grammar::{
    after_whitespace,
    blank,
    lemma_after_whitespace,
    lemma_after_whitespace_run,
    lemma_number_end,
    lemma_scan_elements_advances,
    lemma_scan_members_advances,
    lemma_scan_value_after_whitespace,
    lemma_scan_hex_in_bounds,
    lemma_scan_string_from_advances,
    lemma_scan_value_advances,
    scan_document,
    scan_elements,
    scan_hex,
    scan_members,
    scan_string,
    scan_string_from,
    scan_value,
};
use crate::syntax::{
    entries_fit,
    entries_text,
    entries_value,
    entries_well_formed,
    items_fit,
    items_text,
    items_value,
    items_well_formed,
    pieces_text,
    pieces_value,
    pieces_well_formed,
    Entry,
    Item,
    Piece,
    Syntax,
};
use crate::theorems::{lemma_entry_first, lemma_item_first, lemma_text_first};
use crate::value::Json;

verus! {

/// The text of pieces behind a first piece is the text of the pieces alone.
proof fn lemma_pieces_text_shift(first: Piece, rest: Seq<Piece>, k: int)
    requires
        0 <= k <= rest.len(),
    ensures
        pieces_text(seq![first] + rest, k + 1) == pieces_text(rest, k),
    decreases rest.len() - k,
{
    let all = seq![first] + rest;
    if k < rest.len() {
        lemma_pieces_text_shift(first, rest, k + 1);
        assert(all[k + 1] == rest[k]);
    }
}

/// The value of pieces behind a first piece is the value of the pieces alone.
proof fn lemma_pieces_value_shift(first: Piece, rest: Seq<Piece>, k: int, acc: Seq<char>)
    requires
        0 <= k <= rest.len(),
    ensures
        pieces_value(seq![first] + rest, k + 1, acc) == pieces_value(rest, k, acc),
    decreases rest.len() - k,
{
    let all = seq![first] + rest;
    if k < rest.len() {
        assert(all[k + 1] == rest[k]);
        lemma_pieces_value_shift(first, rest, k + 1, acc.push(rest[k].value()));
    }
}

/// What a first piece adds to the text, the value and the well-formedness
/// of the pieces behind it.
proof fn lemma_pieces_cons(first: Piece, rest: Seq<Piece>, acc: Seq<char>)
    ensures
        pieces_text(seq![first] + rest, 0) == first.text() + pieces_text(rest, 0),
        pieces_value(seq![first] + rest, 0, acc) == pieces_value(rest, 0, acc.push(first.value())),
        first.well_formed() && pieces_well_formed(rest) ==> pieces_well_formed(seq![first] + rest),
{
    let all = seq![first] + rest;
    assert(all[0] == first);
    lemma_pieces_text_shift(first, rest, 0);
    lemma_pieces_value_shift(first, rest, 0, acc.push(first.value()));
    if first.well_formed() && pieces_well_formed(rest) {
        assert forall|k: int| 0 <= k < all.len() implies (#[trigger] all[k]).well_formed() by {
            if k > 0 {
                assert(all[k] == rest[k - 1]);
            }
        }
    }
}

/// Four hexadecimal digits that were read stand in the text and spell the
/// number that was read.
proof fn lemma_scan_hex_digits(s: Seq<char>, i: int, code: nat)
    requires
        0 <= i <= s.len(),
        scan_hex(s, i, 4, 0) == Ok::<nat, Failure>(code),
    ensures
        i + 4 <= s.len(),
        hex_value(s[i]) is Some,
        hex_value(s[i + 1]) is Some,
        hex_value(s[i + 2]) is Some,
        hex_value(s[i + 3]) is Some,
        code == Piece::code(s[i], s[i + 1], s[i + 2], s[i + 3]),
{
    lemma_scan_hex_in_bounds(s, i, 4, 0);
    let n1 = hex_value(s[i])->0;
    assert(scan_hex(s, i, 4, 0) == scan_hex(s, i + 1, 3, n1));
    let n2 = n1 * 16 + hex_value(s[i + 1])->0;
    assert(scan_hex(s, i + 1, 3, n1) == scan_hex(s, i + 2, 2, n2));
    let n3 = n2 * 16 + hex_value(s[i + 2])->0;
    assert(scan_hex(s, i + 2, 2, n2) == scan_hex(s, i + 3, 1, n3));
    let n4 = n3 * 16 + hex_value(s[i + 3])->0;
    assert(scan_hex(s, i + 3, 1, n3) == scan_hex(s, i + 4, 0, n4));
    assert(scan_hex(s, i + 4, 0, n4) == Ok::<nat, Failure>(n4));
}

/// The text between `from` and `to` is the text of `pieces` and a closing quote,
/// and `text` is what the pieces stand for, behind `acc`.
pub open spec fn string_written_as(
    pieces: Seq<Piece>,
    s: Seq<char>,
    from: int,
    to: int,
    acc: Seq<char>,
    text: Seq<char>,
) -> bool {
    &&& pieces_well_formed(pieces)
    &&& s.subrange(from, to) == pieces_text(pieces, 0) + seq!['"']
    &&& text == pieces_value(pieces, 0, acc)
}

/// The piece that stands at `i`, where a string is read on from `i` and does
/// not end there.
pub open spec fn piece_at(s: Seq<char>, i: int) -> Piece {
    if s[i] != '\\' {
        Piece::Plain(s[i])
    } else if s[i + 1] == 'u' {
        Piece::Unicode(s[i + 2], s[i + 3], s[i + 4], s[i + 5])
    } else {
        Piece::Short(s[i + 1])
    }
}

/// Where a string is read on with success from a place where it does not
/// end, a well-formed piece stands there, and reading goes on behind it
/// with the character it stands for.
proof fn lemma_piece_was_written(s: Seq<char>, i: int, acc: Seq<char>)
    requires
        scan_string_from(s, i, acc) is Ok,
        s[i] != '"',
    ensures
        0 <= i,
        i + piece_at(s, i).text().len() <= s.len(),
        piece_at(s, i).well_formed(),
        s.subrange(i, i + piece_at(s, i).text().len()) == piece_at(s, i).text(),
        scan_string_from(s, i, acc) == scan_string_from(
            s,
            i + piece_at(s, i).text().len(),
            acc.push(piece_at(s, i).value()),
        ),
{
    let piece = piece_at(s, i);
    if s[i] == '\\' && s[i + 1] == 'u' {
        lemma_scan_hex_digits(s, i + 2, scan_hex(s, i + 2, 4, 0)->Ok_0);
    }
    assert(s.subrange(i, i + piece.text().len()) =~= piece.text());
}

/// A string that was read was written as some pieces and a closing quote.
pub proof fn lemma_string_was_written(s: Seq<char>, i: int, acc: Seq<char>)
    requires
        scan_string_from(s, i, acc) is Ok,
    ensures
        exists|pieces: Seq<Piece>|
            string_written_as(
                pieces,
                s,
                i,
                scan_string_from(s, i, acc)->Ok_0.1,
                acc,
                scan_string_from(s, i, acc)->Ok_0.0,
            ),
    decreases s.len() - i,
{
    let (text, to) = scan_string_from(s, i, acc)->Ok_0;
    lemma_scan_string_from_advances(s, i, acc);
    let quote = seq!['"'];
    if s[i] == '"' {
        let pieces = Seq::<Piece>::empty();
        assert(s.subrange(i, to) =~= pieces_text(pieces, 0) + quote);
        assert(string_written_as(pieces, s, i, to, acc, text));
    } else {
        let first = piece_at(s, i);
        let from = i + first.text().len();
        let read = acc.push(first.value());
        lemma_piece_was_written(s, i, acc);
        lemma_scan_string_from_advances(s, from, read);
        lemma_string_was_written(s, from, read);
        let rest = choose|rest: Seq<Piece>| string_written_as(rest, s, from, to, read, text);
        let pieces = seq![first] + rest;
        lemma_pieces_cons(first, rest, acc);
        assert(s.subrange(i, to) =~= s.subrange(i, from) + s.subrange(from, to));
        assert(pieces_text(pieces, 0) + quote =~= first.text() + (pieces_text(rest, 0) + quote));
        assert(string_written_as(pieces, s, i, to, acc, text));
    }
}

/// The text of items behind a first item is the text of the items alone.
proof fn lemma_items_text_shift(first: Item, rest: Seq<Item>, k: int)
    requires
        0 <= k <= rest.len(),
    ensures
        items_text(seq![first] + rest, k + 1) == items_text(rest, k),
    decreases rest.len() - k,
{
    let all = seq![first] + rest;
    if k < rest.len() {
        lemma_items_text_shift(first, rest, k + 1);
        assert(all[k + 1] == rest[k]);
    }
}

/// The value of items behind a first item is the value of the items alone.
proof fn lemma_items_value_shift(first: Item, rest: Seq<Item>, k: int, acc: Seq<Json>)
    requires
        0 <= k <= rest.len(),
    ensures
        items_value(seq![first] + rest, k + 1, acc) == items_value(rest, k, acc),
    decreases rest.len() - k,
{
    let all = seq![first] + rest;
    if k < rest.len() {
        assert(all[k + 1] == rest[k]);
        match rest[k] {
            Item::Value(v) => lemma_items_value_shift(first, rest, k + 1, acc.push(v.value())),
            _ => lemma_items_value_shift(first, rest, k + 1, acc),
        }
    }
}

/// The elements that an item adds to those read before it.
pub open spec fn with_item(acc: Seq<Json>, item: Item) -> Seq<Json> {
    match item {
        Item::Value(v) => acc.push(v.value()),
        _ => acc,
    }
}

/// The text between `from` and `to` is the text of `items` and a closing
/// bracket, and `value` is the array of `acc` and the elements among them.
pub open spec fn items_written_as(
    items: Seq<Item>,
    s: Seq<char>,
    from: int,
    to: int,
    depth: nat,
    acc: Seq<Json>,
    value: Json,
) -> bool {
    &&& items_well_formed(items)
    &&& items_fit(items, depth)
    &&& 0 <= from <= to <= s.len()
    &&& s.subrange(from, to) == items_text(items, 0) + seq![']']
    &&& value == Json::Array(items_value(items, 0, acc))
}

/// The code point of a character is a scalar value.
proof fn lemma_char_is_scalar(c: char)
    ensures
        scalar_value(c as nat),
        0 <= c as int,
{
}

/// An item that stands before items that were written makes, with them,
/// items that were written.
proof fn lemma_items_cons(
    first: Item,
    rest: Seq<Item>,
    s: Seq<char>,
    from: int,
    mid: int,
    to: int,
    depth: nat,
    acc: Seq<Json>,
    value: Json,
)
    requires
        first.well_formed(),
        first.fits(depth),
        0 <= from <= mid,
        s.subrange(from, mid) == first.text(),
        first.is_number() ==> !number_char(s[mid]),
        items_written_as(rest, s, mid, to, depth, with_item(acc, first), value),
    ensures
        items_written_as(seq![first] + rest, s, from, to, depth, acc, value),
{
    let all = seq![first] + rest;
    let close = seq![']'];
    assert(all[0] == first);
    lemma_items_text_shift(first, rest, 0);
    lemma_items_value_shift(first, rest, 0, with_item(acc, first));
    assert forall|k: int| 0 <= k < all.len() implies (#[trigger] all[k]).well_formed()
        && all[k].fits(depth) by {
        if k > 0 {
            assert(all[k] == rest[k - 1]);
        }
    }
    assert forall|k: int|
        0 <= k && k + 1 < all.len() && (#[trigger] all[k]).is_number() implies !all[k
        + 1].is_number() by {
        if k > 0 {
            assert(all[k] == rest[k - 1]);
            assert(all[k + 1] == rest[k]);
        } else {
            assert(all[1] == rest[0]);
            assert(rest[0].well_formed());
            lemma_item_first(rest[0]);
            assert(items_text(rest, 0) == rest[0].text() + items_text(rest, 1));
            assert(s.subrange(mid, to)[0] == rest[0].first());
        }
    }
    assert(s.subrange(from, to) =~= s.subrange(from, mid) + s.subrange(mid, to));
    assert(items_text(all, 0) + close =~= first.text() + (items_text(rest, 0) + close));
}

/// The text between `from` and `to` is the text of `t`, which denotes
/// `value` and has at most `depth` levels; behind a number stands no number
/// character.
pub open spec fn value_written_as(
    t: Syntax,
    s: Seq<char>,
    from: int,
    to: int,
    depth: nat,
    value: Json,
) -> bool {
    &&& t.well_formed()
    &&& t.fits(depth)
    &&& 0 <= from <= to <= s.len()
    &&& s.subrange(from, to) == t.text()
    &&& t.value() == value
    &&& (t is Number ==> to == s.len() || !number_char(s[to]))
}

/// A keyword, a number or a string that was read as a value was written as one.
proof fn lemma_scalar_was_written(s: Seq<char>, i: int, depth: nat)
    requires
        scan_value(s, i, depth) is Ok,
        0 <= i < s.len(),
        after_whitespace(s, i) == i,
        s[i] != '{',
        s[i] != '[',
    ensures
        exists|t: Syntax|
            value_written_as(
                t,
                s,
                i,
                scan_value(s, i, depth)->Ok_0.1,
                depth,
                scan_value(s, i, depth)->Ok_0.0,
            ),
{
    let (value, to) = scan_value(s, i, depth)->Ok_0;
    lemma_scan_value_advances(s, i, depth);
    if s[i] == 'n' {
        assert(value_written_as(Syntax::Null, s, i, to, depth, value));
    } else if s[i] == 't' {
        assert(value_written_as(Syntax::True, s, i, to, depth, value));
    } else if s[i] == 'f' {
        assert(value_written_as(Syntax::False, s, i, to, depth, value));
    } else if s[i] == '"' {
        lemma_string_was_written(s, i + 1, Seq::empty());
        let from = i + 1;
        let acc = Seq::<char>::empty();
        let text = scan_string(s, from)->Ok_0.0;
        let pieces = choose|pieces: Seq<Piece>| string_written_as(pieces, s, from, to, acc, text);
        let t = Syntax::String(pieces);
        let quote = seq!['"'];
        assert(s.subrange(i, to) =~= quote + s.subrange(from, to));
        assert(t.text() =~= quote + (pieces_text(pieces, 0) + quote));
        assert(value_written_as(t, s, i, to, depth, value));
    } else {
        lemma_number_end(s, i);
        let t = Syntax::Number(s.subrange(i, to));
        assert(value_written_as(t, s, i, to, depth, value));
    }
}

/// A value that was read was written: behind the whitespace at which
/// reading started stands the text of a well-formed syntax tree that
/// denotes the value.
pub proof fn lemma_value_was_written(s: Seq<char>, i: int, depth: nat)
    requires
        scan_value(s, i, depth) is Ok,
    ensures
        exists|t: Syntax|
            value_written_as(
                t,
                s,
                after_whitespace(s, i),
                scan_value(s, i, depth)->Ok_0.1,
                depth,
                scan_value(s, i, depth)->Ok_0.0,
            ),
    decreases s.len() - i, 0int,
{
    let (value, to) = scan_value(s, i, depth)->Ok_0;
    let j = after_whitespace(s, i);
    lemma_after_whitespace(s, i);
    lemma_scan_value_after_whitespace(s, i, depth);
    lemma_after_whitespace_run(s, j, 0);
    lemma_scan_value_advances(s, j, depth);
    let from = j + 1;
    if s[j] == '[' {
        let within = (depth - 1) as nat;
        let acc = Seq::<Json>::empty();
        lemma_items_were_written(s, from, within, acc);
        let items = choose|items: Seq<Item>|
            items_written_as(items, s, from, to, within, acc, value);
        let t = Syntax::Array(items);
        let open = seq!['['];
        assert(s.subrange(j, to) =~= open + s.subrange(from, to));
        assert(t.text() =~= open + (items_text(items, 0) + seq![']']));
        assert(value_written_as(t, s, j, to, depth, value));
    } else if s[j] == '{' {
        let within = (depth - 1) as nat;
        let acc = Map::<Seq<char>, Json>::empty();
        lemma_entries_were_written(s, from, within, acc);
        let entries = choose|entries: Seq<Entry>|
            entries_written_as(entries, s, from, to, within, acc, value);
        let t = Syntax::Object(entries);
        let open = seq!['{'];
        assert(s.subrange(j, to) =~= open + s.subrange(from, to));
        assert(t.text() =~= open + (entries_text(entries, 0) + seq!['}']));
        assert(value_written_as(t, s, j, to, depth, value));
    } else {
        lemma_scalar_was_written(s, j, depth);
    }
}

/// The rest of an array that was read was written as some items and a
/// closing bracket.
pub proof fn lemma_items_were_written(s: Seq<char>, i: int, depth: nat, acc: Seq<Json>)
    requires
        scan_elements(s, i, depth, acc) is Ok,
    ensures
        exists|items: Seq<Item>|
            items_written_as(
                items,
                s,
                i,
                scan_elements(s, i, depth, acc)->Ok_0.1,
                depth,
                acc,
                scan_elements(s, i, depth, acc)->Ok_0.0,
            ),
    decreases s.len() - i, 1int,
{
    let (value, to) = scan_elements(s, i, depth, acc)->Ok_0;
    lemma_after_whitespace(s, i);
    lemma_scan_elements_advances(s, i, depth, acc);
    if whitespace(s[i]) {
        let mid = i + 1;
        let first = Item::Blank(s[i]);
        lemma_char_is_scalar(s[i]);
        assert(scan_elements(s, i, depth, acc) == scan_elements(s, mid, depth, acc));
        lemma_items_were_written(s, mid, depth, acc);
        let rest = choose|rest: Seq<Item>| items_written_as(rest, s, mid, to, depth, acc, value);
        assert(s.subrange(i, mid) =~= first.text());
        lemma_items_cons(first, rest, s, i, mid, to, depth, acc, value);
        assert(items_written_as(seq![first] + rest, s, i, to, depth, acc, value));
    } else if s[i] == ']' {
        let items = Seq::<Item>::empty();
        assert(s.subrange(i, to) =~= items_text(items, 0) + seq![']']);
        assert(items_written_as(items, s, i, to, depth, acc, value));
    } else if s[i] == ',' {
        let mid = i + 1;
        let first = Item::Comma;
        lemma_items_were_written(s, mid, depth, acc);
        let rest = choose|rest: Seq<Item>| items_written_as(rest, s, mid, to, depth, acc, value);
        assert(s.subrange(i, mid) =~= first.text());
        lemma_items_cons(first, rest, s, i, mid, to, depth, acc, value);
        assert(items_written_as(seq![first] + rest, s, i, to, depth, acc, value));
    } else {
        let (element, mid) = scan_value(s, i, depth)->Ok_0;
        lemma_value_was_written(s, i, depth);
        let t = choose|t: Syntax| value_written_as(t, s, i, mid, depth, element);
        let first = Item::Value(t);
        let read = acc.push(element);
        lemma_items_were_written(s, mid, depth, read);
        let rest = choose|rest: Seq<Item>| items_written_as(rest, s, mid, to, depth, read, value);
        lemma_scan_elements_advances(s, mid, depth, read);
        lemma_items_cons(first, rest, s, i, mid, to, depth, acc, value);
        assert(items_written_as(seq![first] + rest, s, i, to, depth, acc, value));
    }
}

/// The text of entries behind a first entry is the text of the entries alone.
proof fn lemma_entries_text_shift(first: Entry, rest: Seq<Entry>, k: int)
    requires
        0 <= k <= rest.len(),
    ensures
        entries_text(seq![first] + rest, k + 1) == entries_text(rest, k),
    decreases rest.len() - k,
{
    let all = seq![first] + rest;
    if k < rest.len() {
        lemma_entries_text_shift(first, rest, k + 1);
        assert(all[k + 1] == rest[k]);
    }
}

/// The value of entries behind a first entry is the value of the entries alone.
proof fn lemma_entries_value_shift(
    first: Entry,
    rest: Seq<Entry>,
    k: int,
    acc: Map<Seq<char>, Json>,
)
    requires
        0 <= k <= rest.len(),
    ensures
        entries_value(seq![first] + rest, k + 1, acc) == entries_value(rest, k, acc),
    decreases rest.len() - k,
{
    let all = seq![first] + rest;
    if k < rest.len() {
        assert(all[k + 1] == rest[k]);
        lemma_entries_value_shift(first, rest, k + 1, with_entry(acc, rest[k]));
    }
}

/// The members that an entry adds to those read before it.
pub open spec fn with_entry(acc: Map<Seq<char>, Json>, entry: Entry) -> Map<Seq<char>, Json> {
    match entry {
        Entry::Member { key, value, .. } => acc.insert(
            pieces_value(key, 0, Seq::empty()),
            value.value(),
        ),
        _ => acc,
    }
}

/// The text between `from` and `to` is the text of `entries` and a closing
/// brace, and `value` is the object of `acc` and the members among them.
pub open spec fn entries_written_as(
    entries: Seq<Entry>,
    s: Seq<char>,
    from: int,
    to: int,
    depth: nat,
    acc: Map<Seq<char>, Json>,
    value: Json,
) -> bool {
    &&& entries_well_formed(entries)
    &&& entries_fit(entries, depth)
    &&& 0 <= from <= to <= s.len()
    &&& s.subrange(from, to) == entries_text(entries, 0) + seq!['}']
    &&& value == Json::Object(entries_value(entries, 0, acc))
}

/// An entry that stands before entries that were written makes, with them,
/// entries that were written.
proof fn lemma_entries_cons(
    first: Entry,
    rest: Seq<Entry>,
    s: Seq<char>,
    from: int,
    mid: int,
    to: int,
    depth: nat,
    acc: Map<Seq<char>, Json>,
    value: Json,
)
    requires
        first.well_formed(),
        first.fits(depth),
        0 <= from <= mid,
        s.subrange(from, mid) == first.text(),
        first.ends_in_number() ==> !number_char(s[mid]),
        entries_written_as(rest, s, mid, to, depth, with_entry(acc, first), value),
    ensures
        entries_written_as(seq![first] + rest, s, from, to, depth, acc, value),
{
    let all = seq![first] + rest;
    let close = seq!['}'];
    assert(all[0] == first);
    lemma_entries_text_shift(first, rest, 0);
    lemma_entries_value_shift(first, rest, 0, with_entry(acc, first));
    assert forall|k: int| 0 <= k < all.len() implies (#[trigger] all[k]).well_formed()
        && all[k].fits(depth) by {
        if k > 0 {
            assert(all[k] == rest[k - 1]);
        }
    }
    assert forall|k: int|
        0 <= k && k + 1 < all.len() && (#[trigger] all[k]).ends_in_number() implies !number_char(
        all[k + 1].first(),
    ) by {
        if k > 0 {
            assert(all[k] == rest[k - 1]);
            assert(all[k + 1] == rest[k]);
        } else {
            assert(all[1] == rest[0]);
            assert(rest[0].well_formed());
            lemma_entry_first(rest[0]);
            assert(entries_text(rest, 0) == rest[0].text() + entries_text(rest, 1));
            assert(s.subrange(mid, to)[0] == rest[0].first());
        }
    }
    assert(s.subrange(from, to) =~= s.subrange(from, mid) + s.subrange(mid, to));
    assert(entries_text(all, 0) + close =~= first.text() + (entries_text(rest, 0) + close));
}

/// The member that starts at `at`, with the key `key` that ends before
/// `behind_key` and the value `value`.
pub open spec fn member_at(
    s: Seq<char>,
    at: int,
    key: Seq<Piece>,
    behind_key: int,
    value: Syntax,
) -> Entry {
    let colon = after_whitespace(s, behind_key);
    Entry::Member {
        open: s[at],
        key,
        before_colon: s.subrange(behind_key, colon),
        before_value: s.subrange(colon + 1, after_whitespace(s, colon + 1)),
        value,
    }
}

/// A member whose parts were written was written.
proof fn lemma_member_was_written(
    s: Seq<char>,
    at: int,
    key: Seq<Piece>,
    key_text: Seq<char>,
    behind_key: int,
    t: Syntax,
    to: int,
    depth: nat,
    value: Json,
)
    requires
        0 <= at < s.len(),
        !whitespace(s[at]),
        s[at] != '}',
        s[at] != ',',
        at < behind_key <= s.len(),
        string_written_as(key, s, at + 1, behind_key, Seq::empty(), key_text),
        after_whitespace(s, behind_key) < s.len(),
        s[after_whitespace(s, behind_key)] == ':',
        value_written_as(
            t,
            s,
            after_whitespace(s, after_whitespace(s, behind_key) + 1),
            to,
            depth,
            value,
        ),
    ensures
        member_at(s, at, key, behind_key, t).well_formed(),
        member_at(s, at, key, behind_key, t).fits(depth),
        s.subrange(at, to) == member_at(s, at, key, behind_key, t).text(),
{
    let entry = member_at(s, at, key, behind_key, t);
    let colon = after_whitespace(s, behind_key);
    let from = after_whitespace(s, colon + 1);
    lemma_after_whitespace(s, behind_key);
    lemma_after_whitespace(s, colon + 1);
    let before_colon = s.subrange(behind_key, colon);
    let before_value = s.subrange(colon + 1, from);
    assert forall|k: int| 0 <= k < before_colon.len() implies whitespace(
        #[trigger] before_colon[k],
    ) by {
        assert(whitespace(s[behind_key + k]));
    }
    assert forall|k: int| 0 <= k < before_value.len() implies whitespace(
        #[trigger] before_value[k],
    ) by {
        assert(whitespace(s[colon + 1 + k]));
    }
    lemma_char_is_scalar(s[at]);
    let open = seq![s[at]];
    let quote = seq!['"'];
    let colon_text = seq![':'];
    let key_written = pieces_text(key, 0);
    let upto_key = open + key_written + quote;
    assert(s.subrange(at, behind_key) =~= open + s.subrange(at + 1, behind_key));
    assert(upto_key =~= open + (key_written + quote));
    assert(s.subrange(at, behind_key) == upto_key);
    let upto_colon = upto_key + before_colon;
    assert(s.subrange(at, colon) =~= s.subrange(at, behind_key) + before_colon);
    let upto_value = upto_colon + colon_text + before_value;
    assert(s.subrange(at, colon + 1) =~= s.subrange(at, colon) + colon_text);
    assert(s.subrange(at, from) =~= s.subrange(at, colon + 1) + before_value);
    assert(s.subrange(at, to) =~= s.subrange(at, from) + s.subrange(from, to));
    assert(entry.text() == upto_value + t.text());
}

/// The rest of an object that was read was written as some entries and a
/// closing brace.
pub proof fn lemma_entries_were_written(
    s: Seq<char>,
    i: int,
    depth: nat,
    acc: Map<Seq<char>, Json>,
)
    requires
        scan_members(s, i, depth, acc) is Ok,
    ensures
        exists|entries: Seq<Entry>|
            entries_written_as(
                entries,
                s,
                i,
                scan_members(s, i, depth, acc)->Ok_0.1,
                depth,
                acc,
                scan_members(s, i, depth, acc)->Ok_0.0,
            ),
    decreases s.len() - i, 1int,
{
    let (value, to) = scan_members(s, i, depth, acc)->Ok_0;
    lemma_after_whitespace(s, i);
    lemma_scan_members_advances(s, i, depth, acc);
    if whitespace(s[i]) {
        let mid = i + 1;
        let first = Entry::Blank(s[i]);
        lemma_char_is_scalar(s[i]);
        assert(scan_members(s, i, depth, acc) == scan_members(s, mid, depth, acc));
        lemma_entries_were_written(s, mid, depth, acc);
        let rest = choose|rest: Seq<Entry>|
            entries_written_as(rest, s, mid, to, depth, acc, value);
        assert(s.subrange(i, mid) =~= first.text());
        lemma_entries_cons(first, rest, s, i, mid, to, depth, acc, value);
        assert(entries_written_as(seq![first] + rest, s, i, to, depth, acc, value));
    } else if s[i] == '}' {
        let entries = Seq::<Entry>::empty();
        assert(s.subrange(i, to) =~= entries_text(entries, 0) + seq!['}']);
        assert(entries_written_as(entries, s, i, to, depth, acc, value));
    } else if s[i] == ',' {
        let mid = i + 1;
        let first = Entry::Comma;
        lemma_entries_were_written(s, mid, depth, acc);
        let rest = choose|rest: Seq<Entry>|
            entries_written_as(rest, s, mid, to, depth, acc, value);
        assert(s.subrange(i, mid) =~= first.text());
        lemma_entries_cons(first, rest, s, i, mid, to, depth, acc, value);
        assert(entries_written_as(seq![first] + rest, s, i, to, depth, acc, value));
    } else {
        let at_key = i + 1;
        let no_text = Seq::<char>::empty();
        let (key_text, behind_key) = scan_string(s, at_key)->Ok_0;
        lemma_scan_string_from_advances(s, at_key, no_text);
        lemma_string_was_written(s, at_key, no_text);
        let key = choose|key: Seq<Piece>|
            string_written_as(key, s, at_key, behind_key, no_text, key_text);
        let colon = after_whitespace(s, behind_key);
        lemma_after_whitespace(s, behind_key);
        let at_value = colon + 1;
        let (element, mid) = scan_value(s, at_value, depth)->Ok_0;
        lemma_scan_value_advances(s, at_value, depth);
        lemma_value_was_written(s, at_value, depth);
        let from = after_whitespace(s, at_value);
        let t = choose|t: Syntax| value_written_as(t, s, from, mid, depth, element);
        let first = member_at(s, i, key, behind_key, t);
        lemma_member_was_written(s, i, key, key_text, behind_key, t, mid, depth, element);
        let read = acc.insert(key_text, element);
        lemma_entries_were_written(s, mid, depth, read);
        let rest = choose|rest: Seq<Entry>|
            entries_written_as(rest, s, mid, to, depth, read, value);
        lemma_scan_members_advances(s, mid, depth, read);
        lemma_entries_cons(first, rest, s, i, mid, to, depth, acc, value);
        assert(entries_written_as(seq![first] + rest, s, i, to, depth, acc, value));
    }
}

/// The text between `from` and `to` is whitespace and then the text of the
/// array or object `doc`, which denotes `value` and has at most `depth` levels.
pub open spec fn document_written_as(
    doc: Syntax,
    lead: Seq<char>,
    s: Seq<char>,
    from: int,
    to: int,
    depth: nat,
    value: Json,
) -> bool {
    &&& doc is Array || doc is Object
    &&& doc.well_formed()
    &&& doc.fits(depth)
    &&& blank(lead)
    &&& 0 <= from <= to <= s.len()
    &&& s.subrange(from, to) == lead + doc.text()
    &&& doc.value() == value
}

/// Whatever is read as a document was written as one.
///
/// Where reading a document succeeds, the text between the place where
/// reading started and the place where it ended is whitespace followed by
/// the text of a well-formed array or object that is nested no deeper than
/// the reader allows, and the value read is the value it denotes.
pub proof fn lemma_document_was_written(s: Seq<char>, i: int, depth: nat)
    requires
        scan_document(s, i, depth) is Ok,
    ensures
        exists|doc: Syntax, lead: Seq<char>|
            document_written_as(
                doc,
                lead,
                s,
                i,
                scan_document(s, i, depth)->Ok_0.1,
                depth,
                scan_document(s, i, depth)->Ok_0.0,
            ),
{
    let (value, to) = scan_document(s, i, depth)->Ok_0;
    let j = after_whitespace(s, i);
    lemma_after_whitespace(s, i);
    lemma_after_whitespace_run(s, j, 0);
    assert(scan_document(s, i, depth) == scan_value(s, j, depth));
    lemma_value_was_written(s, j, depth);
    let doc = choose|doc: Syntax| value_written_as(doc, s, j, to, depth, value);
    let lead = s.subrange(i, j);
    assert(s.subrange(i, to) =~= lead + s.subrange(j, to));
    lemma_text_first(doc);
    assert(s.subrange(j, to)[0] == s[j]);
    assert(document_written_as(doc, lead, s, i, to, depth, value));
}

} // verus!
