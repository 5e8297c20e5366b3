//! What is written is JSON: the compact and the indented text of a value
//! are JSON texts, provided that the strings of the value can stand between
//! quotes as they are stored.

use vstd::prelude::*;
use crate::chars::is_digit;
use crate::grammar::{
    document, entries_from, items_from, lemma_entry_positions, next_separator, number_end,
    parse_value, text_from, value_at,
};
use crate::nested::{
    deserialize, deserialize_entries, deserialize_items, lemma_deserialize_entries,
    lemma_deserialize_items, lemma_document_mass, lemma_entry_mass, lemma_item_mass, mass,
    repaired,
};
use crate::number::{
    canonical_number, lemma_canonical_number_idempotent, lemma_canonical_number_is_json,
};
use crate::render::{
    compact, compact_fields, compact_parts, indentation, join, pretty, pretty_fields,
    pretty_lines, quoted,
};
use crate::syntax::{
    element_text, element_texts, is_blank, is_json_text, is_string_body, member_text,
    member_texts, Element, Member, Syntax,
};
use crate::text::{lemma_skip_spaces, lemma_trim_is_tight, looks_nested, skip_spaces, trim};
use crate::value::{keep_last, lemma_keep_last, Value};

verus! {

/// Whether every number of `v` is a canonical literal.
pub open spec fn canonical_numbers(v: Value) -> bool
    decreases v,
{
    match v {
        Value::Number(literal) => canonical_number(literal) == literal,
        Value::Array(items) => forall|k: int|
            0 <= k < items.len() ==> canonical_numbers(#[trigger] items[k]),
        Value::Object(entries) => forall|k: int|
            0 <= k < entries.len() ==> canonical_numbers((#[trigger] entries[k]).1),
        _ => true,
    }
}

/// Whether every string and every key of `v` can stand between quotes as
/// it is stored.
pub open spec fn sound_strings(v: Value) -> bool
    decreases v,
{
    match v {
        Value::Text(text) => is_string_body(text),
        Value::Array(items) => forall|k: int|
            0 <= k < items.len() ==> sound_strings(#[trigger] items[k]),
        Value::Object(entries) => forall|k: int|
            0 <= k < entries.len() ==> is_string_body((#[trigger] entries[k]).0) && sound_strings(
                entries[k].1,
            ),
        _ => true,
    }
}

/// The tree that writes the compact text of `v`: no white space anywhere.
pub open spec fn compact_tree(v: Value) -> Syntax
    decreases v, 1nat,
{
    match v {
        Value::Null => Syntax::Null,
        Value::True => Syntax::True,
        Value::False => Syntax::False,
        Value::Number(literal) => Syntax::Number(literal),
        Value::Text(text) => Syntax::Text(text),
        Value::Array(items) => Syntax::Array(compact_elements(items), Seq::empty()),
        Value::Object(entries) => Syntax::Object(compact_members(entries), Seq::empty()),
    }
}

/// The elements that write the compact texts of `items`.
pub open spec fn compact_elements(items: Seq<Value>) -> Seq<Element>
    decreases items, 0nat,
{
    Seq::new(
        items.len(),
        |k: int|
            Element {
                before: Seq::empty(),
                value: if 0 <= k < items.len() {
                    compact_tree(items[k])
                } else {
                    Syntax::Null
                },
                after: Seq::empty(),
            },
    )
}

/// The members that write the compact texts of `entries`.
pub open spec fn compact_members(entries: Seq<(Seq<char>, Value)>) -> Seq<Member>
    decreases entries, 0nat,
{
    Seq::new(
        entries.len(),
        |k: int|
            Member {
                before: Seq::empty(),
                key: entries[k].0,
                between: Seq::empty(),
                element: Element {
                    before: Seq::empty(),
                    value: if 0 <= k < entries.len() {
                        compact_tree(entries[k].1)
                    } else {
                        Syntax::Null
                    },
                    after: Seq::empty(),
                },
            },
    )
}

/// A line feed and the white space that opens a line `level` levels deep.
pub open spec fn line_break(level: nat) -> Seq<char> {
    seq!['\n'] + indentation(level)
}

/// The white space behind the item at `k` of `count` items of a container
/// that opens `level` levels deep: the line break before the closing
/// bracket behind the last item, nothing behind the others.
pub open spec fn closing_break(k: int, count: nat, level: nat) -> Seq<char> {
    if k == count - 1 {
        line_break(level)
    } else {
        Seq::empty()
    }
}

/// The tree that writes the indented text of `v`, where `v` opens on a
/// line `level` levels deep.
pub open spec fn pretty_tree(v: Value, level: nat) -> Syntax
    decreases v, 1nat,
{
    match v {
        Value::Null => Syntax::Null,
        Value::True => Syntax::True,
        Value::False => Syntax::False,
        Value::Number(literal) => Syntax::Number(literal),
        Value::Text(text) => Syntax::Text(text),
        Value::Array(items) => Syntax::Array(pretty_elements(items, level), Seq::empty()),
        Value::Object(entries) => Syntax::Object(pretty_members(entries, level), Seq::empty()),
    }
}

/// The elements that write the lines of `items`.
pub open spec fn pretty_elements(items: Seq<Value>, level: nat) -> Seq<Element>
    decreases items, 0nat,
{
    Seq::new(
        items.len(),
        |k: int|
            Element {
                before: line_break(level + 1),
                value: if 0 <= k < items.len() {
                    pretty_tree(items[k], level + 1)
                } else {
                    Syntax::Null
                },
                after: closing_break(k, items.len(), level),
            },
    )
}

/// The members that write the lines of `entries`.
pub open spec fn pretty_members(entries: Seq<(Seq<char>, Value)>, level: nat) -> Seq<Member>
    decreases entries, 0nat,
{
    Seq::new(
        entries.len(),
        |k: int|
            Member {
                before: line_break(level + 1),
                key: entries[k].0,
                between: Seq::empty(),
                element: Element {
                    before: seq![' '],
                    value: if 0 <= k < entries.len() {
                        pretty_tree(entries[k].1, level + 1)
                    } else {
                        Syntax::Null
                    },
                    after: closing_break(k, entries.len(), level),
                },
            },
    )
}

/// The compact tree of a value with canonical numbers and sound strings follows the
/// grammar and writes the compact text of the value.
pub proof fn lemma_compact_tree(v: Value)
    requires
        canonical_numbers(v),
        sound_strings(v),
    ensures
        compact_tree(v).valid(),
        compact_tree(v).text() == compact(v),
    decreases v,
{
    match v {
        Value::Array(items) => {
            let elements = compact_elements(items);
            assert forall|k: int| 0 <= k < items.len() implies (#[trigger] elements[k]).value.valid()
                && element_text(elements[k]) == compact(items[k]) by {
                lemma_compact_tree(items[k]);
            }
            assert(element_texts(elements) =~= compact_parts(items));
        },
        Value::Object(entries) => {
            let members = compact_members(entries);
            assert forall|k: int| 0 <= k < entries.len() implies (#[trigger] members[k]).element.value.valid()
                && member_text(members[k]) == quoted(entries[k].0) + seq![':'] + compact(
                entries[k].1,
            ) by {
                lemma_compact_tree(entries[k].1);
            }
            assert(member_texts(members) =~= compact_fields(entries));
        },
        Value::Number(literal) => {
            lemma_canonical_number_is_json(literal);
        },
        _ => {},
    }
}

/// The compact text of a value with canonical numbers and sound strings is a JSON
/// text.
pub proof fn lemma_compact_is_json(v: Value)
    requires
        canonical_numbers(v),
        sound_strings(v),
    ensures
        is_json_text(compact(v)),
{
    lemma_compact_tree(v);
    let element = Element { before: Seq::empty(), value: compact_tree(v), after: Seq::empty() };
    assert(element_text(element) =~= compact(v));
}

/// Each of `parts` behind `front`.
pub open spec fn prefixed(parts: Seq<Seq<char>>, front: Seq<char>) -> Seq<Seq<char>> {
    Seq::new(parts.len(), |k: int| front + parts[k])
}

/// Parts that each open with `front`, joined by `sep`, are `front` and the
/// parts joined by `sep` and `front`.
pub proof fn lemma_join_prefixed(parts: Seq<Seq<char>>, sep: Seq<char>, front: Seq<char>)
    requires
        parts.len() > 0,
    ensures
        join(prefixed(parts, front), sep) == front + join(parts, sep + front),
    decreases parts.len(),
{
    let opened = prefixed(parts, front);
    if parts.len() > 1 {
        lemma_join_prefixed(parts.drop_last(), sep, front);
        assert(opened.drop_last() =~= prefixed(parts.drop_last(), front));
    }
}

/// A text behind the last of the parts comes behind the parts joined.
pub proof fn lemma_join_closed(parts: Seq<Seq<char>>, sep: Seq<char>, tail: Seq<char>)
    requires
        parts.len() > 0,
    ensures
        join(parts.update(parts.len() - 1, parts.last() + tail), sep) == join(parts, sep) + tail,
{
    let closed = parts.update(parts.len() - 1, parts.last() + tail);
    if parts.len() > 1 {
        assert(closed.drop_last() =~= parts.drop_last());
    }
}

/// Lines that each stand behind a line feed, the last of them before a
/// closing line break, and commas between them: that is the lines joined by
/// a comma and a line feed, between a line feed and the closing line break.
pub proof fn lemma_join_lines(texts: Seq<Seq<char>>, lines: Seq<Seq<char>>, level: nat)
    requires
        lines.len() > 0,
        texts.len() == lines.len(),
        forall|k: int|
            0 <= k < lines.len() ==> #[trigger] texts[k] == seq!['\n'] + lines[k] + closing_break(
                k,
                lines.len(),
                level,
            ),
    ensures
        join(texts, seq![',']) == seq!['\n'] + join(lines, seq![',', '\n']) + seq!['\n']
            + indentation(level),
{
    let feed = seq!['\n'];
    let opened = prefixed(lines, feed);
    lemma_join_prefixed(lines, seq![','], feed);
    lemma_join_closed(opened, seq![','], line_break(level));
    assert(seq![','] + feed =~= seq![',', '\n']);
    assert(texts =~= opened.update(opened.len() - 1, opened.last() + line_break(level)));
}

/// The indented tree of a value with canonical numbers and sound strings follows the
/// grammar and writes the indented text of the value.
pub proof fn lemma_pretty_tree(v: Value, level: nat)
    requires
        canonical_numbers(v),
        sound_strings(v),
    ensures
        pretty_tree(v, level).valid(),
        pretty_tree(v, level).text() == pretty(v, level),
    decreases v, 1nat,
{
    match v {
        Value::Array(items) => {
            lemma_pretty_elements(items, level);
        },
        Value::Object(entries) => {
            lemma_pretty_members(entries, level);
        },
        Value::Number(literal) => {
            lemma_canonical_number_is_json(literal);
        },
        _ => {},
    }
}

/// The indented elements of items with canonical numbers and sound strings follow
/// the grammar and write the indented text of the array of the items.
pub proof fn lemma_pretty_elements(items: Seq<Value>, level: nat)
    requires
        forall|k: int|
            0 <= k < items.len() ==> canonical_numbers(#[trigger] items[k]) && sound_strings(items[k]),
    ensures
        Syntax::Array(pretty_elements(items, level), Seq::empty()).valid(),
        Syntax::Array(pretty_elements(items, level), Seq::empty()).text() == pretty(
            Value::Array(items),
            level,
        ),
    decreases items, 0nat,
{
    let elements = pretty_elements(items, level);
    let lines = pretty_lines(items, level);
    let texts = element_texts(elements);
    assert forall|k: int| 0 <= k < items.len() implies (#[trigger] elements[k]).value.valid()
        && is_blank(elements[k].before) && is_blank(elements[k].after) by {
        lemma_pretty_tree(items[k], level + 1);
    }
    assert forall|k: int| 0 <= k < items.len() implies #[trigger] texts[k] == seq!['\n'] + lines[k]
        + closing_break(k, lines.len(), level) by {
        lemma_pretty_tree(items[k], level + 1);
    }
    if items.len() > 0 {
        lemma_join_lines(texts, lines, level);
    }
}

/// The indented members of entries with canonical numbers and sound strings follow
/// the grammar and write the indented text of the object of the entries.
pub proof fn lemma_pretty_members(entries: Seq<(Seq<char>, Value)>, level: nat)
    requires
        forall|k: int|
            0 <= k < entries.len() ==> is_string_body((#[trigger] entries[k]).0) && canonical_numbers(
                entries[k].1,
            ) && sound_strings(entries[k].1),
    ensures
        Syntax::Object(pretty_members(entries, level), Seq::empty()).valid(),
        Syntax::Object(pretty_members(entries, level), Seq::empty()).text() == pretty(
            Value::Object(entries),
            level,
        ),
    decreases entries, 0nat,
{
    let members = pretty_members(entries, level);
    let lines = pretty_fields(entries, level);
    let texts = member_texts(members);
    assert forall|k: int| 0 <= k < entries.len() implies (#[trigger] members[k]).element.value.valid()
        && is_blank(members[k].before) && is_blank(members[k].between) && is_blank(
        members[k].element.before,
    ) && is_blank(members[k].element.after) && is_string_body(members[k].key) by {
        lemma_pretty_tree(entries[k].1, level + 1);
    }
    assert forall|k: int| 0 <= k < entries.len() implies #[trigger] texts[k] == seq!['\n']
        + lines[k] + closing_break(k, lines.len(), level) by {
        lemma_pretty_tree(entries[k].1, level + 1);
    }
    if entries.len() > 0 {
        lemma_join_lines(texts, lines, level);
    }
}

/// The indented text of a value with canonical numbers and sound strings is a JSON
/// text, at whatever level it opens.
pub proof fn lemma_pretty_is_json(v: Value, level: nat)
    requires
        canonical_numbers(v),
        sound_strings(v),
    ensures
        is_json_text(pretty(v, level)),
{
    lemma_pretty_tree(v, level);
    let element = Element {
        before: Seq::empty(),
        value: pretty_tree(v, level),
        after: Seq::empty(),
    };
    assert(element_text(element) =~= pretty(v, level));
}

/// Whether the numbers of each of `items` are canonical.
pub open spec fn all_canonical_numbers(items: Seq<Value>) -> bool {
    forall|k: int| 0 <= k < items.len() ==> canonical_numbers(#[trigger] items[k])
}

/// Whether the numbers of the value of each of `entries` are canonical.
pub open spec fn all_values_canonical_numbers(entries: Seq<(Seq<char>, Value)>) -> bool {
    forall|k: int| 0 <= k < entries.len() ==> canonical_numbers((#[trigger] entries[k]).1)
}

/// The object that is given entries with canonical numbers has canonical numbers.
pub proof fn lemma_object_numbers(raw: Seq<(Seq<char>, Value)>)
    requires
        all_values_canonical_numbers(raw),
    ensures
        canonical_numbers(Value::Object(keep_last(raw))),
{
    lemma_keep_last(raw);
    let kept = keep_last(raw);
    assert forall|k: int| 0 <= k < kept.len() implies canonical_numbers((#[trigger] kept[k]).1) by {
        assert(kept.contains(kept[k]));
    }
}

/// Every number of a value that is read from a text is a canonical
/// literal.
pub proof fn lemma_value_at_numbers(s: Seq<char>, at: int)
    ensures
        canonical_numbers(value_at(s, at).0),
    decreases s.len() - at, 0nat,
{
    if 0 <= at < s.len() {
        let c = s[at];
        if is_digit(c) || c == '-' || c == '.' {
            lemma_canonical_number_idempotent(s.subrange(at, number_end(s, at)));
        } else if c == '[' {
            lemma_items_from_numbers(s, at + 1);
        } else if c == '{' {
            lemma_entries_from_numbers(s, at + 1);
            lemma_object_numbers(entries_from(s, at + 1).0);
        }
    }
}

/// Every number of a value that is read from a text is a canonical
/// literal.
pub proof fn lemma_parse_value_numbers(s: Seq<char>, from: int)
    ensures
        canonical_numbers(parse_value(s, from).0),
    decreases s.len() - from, 1nat,
{
    if 0 <= from <= s.len() {
        lemma_skip_spaces(s, from);
    }
    lemma_value_at_numbers(s, skip_spaces(s, from));
}

/// The numbers of the items of an array that is read from a text are
/// canonical.
pub proof fn lemma_items_from_numbers(s: Seq<char>, from: int)
    ensures
        all_canonical_numbers(items_from(s, from).0),
    decreases s.len() - from, 2nat,
{
    let at = skip_spaces(s, from);
    if 0 <= from <= at < s.len() && s[at] != ']' {
        if s[at] == ',' {
            lemma_items_from_numbers(s, at + 1);
        } else {
            lemma_value_at_numbers(s, at);
            let (item, end) = value_at(s, at);
            let next = next_separator(s, end);
            if at < next <= s.len() {
                lemma_items_from_numbers(s, next);
            }
        }
    }
}

/// The numbers of the entries of an object that is read from a text are
/// canonical.
pub proof fn lemma_entries_from_numbers(s: Seq<char>, from: int)
    ensures
        all_values_canonical_numbers(entries_from(s, from).0),
    decreases s.len() - from, 2nat,
{
    let at = skip_spaces(s, from);
    if 0 <= from <= at < s.len() && s[at] != '}' {
        if s[at] == '"' {
            lemma_entry_positions(s, at);
            let (key, after_key) = text_from(s, at + 1);
            let colon = skip_spaces(s, after_key);
            let start = if 0 <= colon < s.len() && s[colon] == ':' {
                colon + 1
            } else {
                colon
            };
            lemma_parse_value_numbers(s, start);
            let (value, end) = parse_value(s, start);
            if at < end <= s.len() {
                lemma_entries_from_numbers(s, end);
            }
        } else {
            lemma_entries_from_numbers(s, at + 1);
        }
    }
}

/// `deserialize` keeps the numbers canonical.
pub proof fn lemma_deserialize_numbers(v: Value)
    requires
        canonical_numbers(v),
    ensures
        canonical_numbers(deserialize(v)),
    decreases mass(v),
{
    match v {
        Value::Text(text) => {
            if looks_nested(text) {
                lemma_trim_is_tight(text);
                lemma_document_mass(trim(text));
                lemma_parse_value_numbers(trim(text), 0);
                lemma_deserialize_numbers(document(trim(text)));
            }
        },
        Value::Array(items) => {
            lemma_deserialize_items(items);
            let done = deserialize_items(items);
            assert forall|k: int| 0 <= k < done.len() implies canonical_numbers(#[trigger] done[k]) by {
                lemma_item_mass(items, k);
                lemma_deserialize_numbers(items[k]);
            }
        },
        Value::Object(entries) => {
            lemma_deserialize_entries(entries);
            let done = deserialize_entries(entries);
            assert forall|k: int| 0 <= k < done.len() implies canonical_numbers(
                (#[trigger] done[k]).1,
            ) by {
                lemma_entry_mass(entries, k);
                lemma_deserialize_numbers(entries[k].1);
            }
        },
        _ => {},
    }
}

/// Whatever the input, every number of the value it is repaired to is a
/// canonical literal.
pub proof fn lemma_repaired_numbers(input: Seq<char>)
    ensures
        canonical_numbers(repaired(input)),
{
    lemma_parse_value_numbers(trim(input), 0);
    lemma_deserialize_numbers(document(trim(input)));
}

/// Whatever the input, what it is repaired to is written as a JSON text,
/// compact and indented, provided that its strings and keys can stand
/// between quotes as they are.
pub proof fn lemma_repair_is_json(input: Seq<char>)
    requires
        sound_strings(repaired(input)),
    ensures
        is_json_text(compact(repaired(input))),
        is_json_text(pretty(repaired(input), 0)),
{
    lemma_repaired_numbers(input);
    lemma_compact_is_json(repaired(input));
    lemma_pretty_is_json(repaired(input), 0);
}

} // verus!
