//! Reading back what was written: the compact text of a canonical value
//! stands for that value.

use vstd::prelude::*;
use crate::chars::{is_digit, is_number_char, is_space};
use crate::grammar::{
    document, entries_from, items_from, next_separator, number_end, parse_value, text_from,
    value_at,
};
use crate::nested::{
    lemma_deserialize_of_settled, lemma_deserialize_settles, lemma_repaired_is_well_formed,
    repaired, settled,
};
use crate::number::{
    canonical_number, lemma_parts_of_are_proper, lemma_whole_text, literal_of, parts_of,
    proper_parts, NumberParts,
};
use crate::render::{compact, compact_fields, compact_parts, join, quoted};
use crate::text::{lemma_trim_of_tight, looks_nested, trim};
use crate::validity::{canonical_numbers, lemma_repaired_numbers};
use crate::value::{distinct_keys, keep_last, lemma_key_position, Value};

verus! {

/// Whether `text` can stand between quotes as it is: it holds neither a
/// quote nor a backslash.
pub open spec fn is_bare(text: Seq<char>) -> bool {
    forall|k: int| 0 <= k < text.len() ==> #[trigger] text[k] != '"' && text[k] != '\\'
}

/// Whether `v` is written as it is read: its numbers are canonical
/// literals, its strings and keys need no escape, none of its strings
/// looks like a document, and none of its objects holds a key twice.
pub open spec fn canonical(v: Value) -> bool
    decreases v,
{
    match v {
        Value::Number(literal) => canonical_number(literal) == literal,
        Value::Text(text) => is_bare(text) && !looks_nested(text),
        Value::Array(items) => forall|k: int|
            0 <= k < items.len() ==> canonical(#[trigger] items[k]),
        Value::Object(entries) => {
            &&& distinct_keys(entries)
            &&& forall|k: int|
                0 <= k < entries.len() ==> is_bare((#[trigger] entries[k]).0) && canonical(
                    entries[k].1,
                )
        },
        _ => true,
    }
}

/// Whether `t` stands in `s` at position `at`.
pub open spec fn occurs_at(s: Seq<char>, at: int, t: Seq<char>) -> bool {
    &&& 0 <= at
    &&& at + t.len() <= s.len()
    &&& s.subrange(at, at + t.len()) == t
}

/// Whether `v` is `null`, `true` or `false`.
pub open spec fn is_word(v: Value) -> bool {
    v is Null || v is True || v is False
}

/// The number of characters that the lenient grammar reads of the compact
/// text of `v`: the first letter of a word, and all of anything else.
pub open spec fn taken(v: Value) -> int {
    if is_word(v) {
        1
    } else {
        compact(v).len() as int
    }
}

/// Whether `c` is a small letter.
pub open spec fn is_letter(c: char) -> bool {
    'a' <= c <= 'z'
}

/// The characters of a text that stands in another are found there.
pub proof fn lemma_occurs_index(s: Seq<char>, at: int, t: Seq<char>, k: int)
    requires
        occurs_at(s, at, t),
        0 <= k < t.len(),
    ensures
        s[at + k] == t[k],
{
}

/// Where two texts in a row stand in another, each of them stands there.
pub proof fn lemma_occurs_split(s: Seq<char>, at: int, a: Seq<char>, b: Seq<char>)
    requires
        occurs_at(s, at, a + b),
    ensures
        occurs_at(s, at, a),
        occurs_at(s, at + a.len(), b),
{
    let whole = a + b;
    assert(s.subrange(at, at + a.len()) =~= a);
    assert(s.subrange(at + a.len(), at + a.len() + b.len()) =~= b) by {
        assert forall|k: int| 0 <= k < b.len() implies s.subrange(
            at + a.len(),
            at + a.len() + b.len(),
        )[k] == b[k] by {
            lemma_occurs_index(s, at, whole, a.len() + k);
        }
    }
}

/// The run of number characters from `from` ends at `end`, where only
/// number characters stand between the two and none stands at `end`.
pub proof fn lemma_number_end_is(s: Seq<char>, from: int, end: int)
    requires
        0 <= from <= end <= s.len(),
        forall|k: int| from <= k < end ==> is_number_char(#[trigger] s[k]),
        end < s.len() ==> !is_number_char(s[end]),
    ensures
        number_end(s, from) == end,
    decreases end - from,
{
    if from < end {
        lemma_number_end_is(s, from + 1, end);
    }
}

/// The next comma or closing bracket from `from` stands at `at`, where
/// none stands between the two.
pub proof fn lemma_next_separator_is(s: Seq<char>, from: int, at: int)
    requires
        0 <= from <= at < s.len(),
        forall|k: int| from <= k < at ==> #[trigger] s[k] != ',' && s[k] != ']',
        s[at] == ',' || s[at] == ']',
    ensures
        next_separator(s, from) == at,
    decreases at - from,
{
    if from < at {
        lemma_next_separator_is(s, from + 1, at);
    }
}

/// Joining from the front: the first part, and behind it the separator and
/// the others joined, where there are others.
pub proof fn lemma_join_front(parts: Seq<Seq<char>>, sep: Seq<char>)
    requires
        parts.len() > 0,
    ensures
        join(parts, sep) == if parts.len() == 1 {
            parts[0]
        } else {
            parts[0] + sep + join(parts.drop_first(), sep)
        },
    decreases parts.len(),
{
    if parts.len() == 2 {
        assert(join(parts.drop_last(), sep) == parts[0]);
    } else if parts.len() > 2 {
        lemma_join_front(parts.drop_last(), sep);
        assert(parts.drop_last().drop_first() =~= parts.drop_first().drop_last());
    }
}

/// A string literal without escapes is read back as it stands.
pub proof fn lemma_read_text(s: Seq<char>, from: int, text: Seq<char>)
    requires
        is_bare(text),
        occurs_at(s, from, text + seq!['"']),
    ensures
        text_from(s, from) == (text, from + text.len() + 1),
    decreases text.len(),
{
    let lit = text + seq!['"'];
    lemma_occurs_index(s, from, lit, 0);
    if text.len() > 0 {
        let rest = text.drop_first();
        assert(lit =~= seq![text[0]] + (rest + seq!['"']));
        lemma_occurs_split(s, from, seq![text[0]], rest + seq!['"']);
        lemma_read_text(s, from + 1, rest);
    }
}

/// The literal of proper parts is made of number characters, opens with a
/// minus sign or a digit, and ends with a digit.
pub proof fn lemma_literal_chars(p: NumberParts)
    requires
        proper_parts(p),
    ensures
        literal_of(p).len() > 0,
        literal_of(p)[0] == '-' || is_digit(literal_of(p)[0]),
        is_digit(literal_of(p).last()),
        forall|k: int| 0 <= k < literal_of(p).len() ==> is_number_char(#[trigger] literal_of(p)[k]),
{
    lemma_whole_text(p);
}

/// The compact text of a canonical value opens with a character that is
/// no white space, comma, closing bracket or closing brace, and ends with
/// one that is no white space.
pub proof fn lemma_compact_ends(v: Value)
    requires
        canonical(v),
    ensures
        compact(v).len() > 0,
        !is_space(compact(v)[0]),
        compact(v)[0] != ',' && compact(v)[0] != ']' && compact(v)[0] != '}',
        !is_space(compact(v).last()),
{
    match v {
        Value::Number(literal) => {
            lemma_parts_of_are_proper(literal);
            lemma_literal_chars(parts_of(literal));
        },
        _ => {},
    }
}

/// The object that is given entries without a double key holds them as
/// they were given.
pub proof fn lemma_keep_last_of_distinct(entries: Seq<(Seq<char>, Value)>)
    requires
        distinct_keys(entries),
    ensures
        keep_last(entries) == entries,
    decreases entries.len(),
{
    if entries.len() > 0 {
        let front = entries.drop_last();
        lemma_keep_last_of_distinct(front);
        lemma_key_position(front, entries.last().0, 0);
    }
}

/// Where a key is expected, small letters are passed over.
pub proof fn lemma_entries_skip_letters(s: Seq<char>, from: int, upto: int)
    requires
        0 <= from <= upto <= s.len(),
        forall|k: int| from <= k < upto ==> is_letter(#[trigger] s[k]),
    ensures
        entries_from(s, from) == entries_from(s, upto),
    decreases upto - from,
{
    if from < upto {
        lemma_entries_skip_letters(s, from + 1, upto);
    }
}

/// The compact text of a canonical value is read back as that value: from
/// `at`, where the text stands, the lenient grammar reads `v`, and it
/// reads all of the text, or the first letter of a word.
pub proof fn lemma_read_value(s: Seq<char>, at: int, v: Value)
    requires
        canonical(v),
        occurs_at(s, at, compact(v)),
        at + compact(v).len() < s.len() ==> !is_number_char(s[at + compact(v).len()]),
    ensures
        value_at(s, at) == (v, at + taken(v)),
    decreases v, 0nat,
{
    let c = compact(v);
    lemma_compact_ends(v);
    match v {
        Value::Number(literal) => {
            lemma_parts_of_are_proper(literal);
            lemma_literal_chars(parts_of(literal));
            assert forall|k: int| at <= k < at + c.len() implies is_number_char(#[trigger] s[k]) by {
                lemma_occurs_index(s, at, c, k - at);
            }
            lemma_number_end_is(s, at, at + c.len());
        },
        Value::Text(text) => {
            assert(c =~= seq!['"'] + (text + seq!['"']));
            lemma_occurs_split(s, at, seq!['"'], text + seq!['"']);
            lemma_read_text(s, at + 1, text);
        },
        Value::Array(items) => {
            let inner = join(compact_parts(items), seq![',']);
            assert(c =~= seq!['['] + (inner + seq![']']));
            lemma_occurs_split(s, at, seq!['['], inner + seq![']']);
            lemma_read_items(s, at + 1, items);
        },
        Value::Object(entries) => {
            let inner = join(compact_fields(entries), seq![',']);
            assert(c =~= seq!['{'] + (inner + seq!['}']));
            lemma_occurs_split(s, at, seq!['{'], inner + seq!['}']);
            lemma_read_entries(s, at + 1, entries);
            lemma_keep_last_of_distinct(entries);
        },
        _ => {},
    }
}

/// The compact texts of items, with commas between them and a closing
/// bracket behind them, are read back as those items.
pub proof fn lemma_read_items(s: Seq<char>, from: int, items: Seq<Value>)
    requires
        forall|k: int| 0 <= k < items.len() ==> canonical(#[trigger] items[k]),
        occurs_at(s, from, join(compact_parts(items), seq![',']) + seq![']']),
    ensures
        items_from(s, from) == (items, from + join(compact_parts(items), seq![',']).len() + 1),
    decreases items, 0nat,
{
    let sep = seq![','];
    let parts = compact_parts(items);
    let inner = join(parts, sep);
    let whole = inner + seq![']'];
    if items.len() == 0 {
        lemma_occurs_index(s, from, whole, 0);
    } else {
        let first = items[0];
        let rest = items.drop_first();
        let c0 = compact(first);
        assert(compact_parts(rest) =~= parts.drop_first());
        let rest_inner = join(compact_parts(rest), sep);
        lemma_join_front(parts, sep);
        let m = from + c0.len();
        if items.len() == 1 {
            lemma_occurs_split(s, from, c0, seq![']']);
            lemma_occurs_index(s, m, seq![']'], 0);
        } else {
            assert(whole =~= c0 + (sep + (rest_inner + seq![']'])));
            lemma_occurs_split(s, from, c0, sep + (rest_inner + seq![']']));
            lemma_occurs_split(s, m, sep, rest_inner + seq![']']);
            lemma_occurs_index(s, m, sep, 0);
        }
        lemma_read_value(s, from, first);
        let end = from + taken(first);
        lemma_next_separator_is(s, end, m);
        if items.len() == 1 {
            assert(items_from(s, m) == (Seq::<Value>::empty(), m + 1));
        } else {
            lemma_read_items(s, m + 1, rest);
            assert(items_from(s, m) == items_from(s, m + 1));
        }
    }
}

/// The compact text of an entry is read back as that entry, and what
/// stands behind it as the entries that follow: `from` is where the key's
/// opening quote stands, and a comma or a closing brace stands behind the
/// entry.
pub proof fn lemma_read_entry(s: Seq<char>, from: int, key: Seq<char>, value: Value)
    requires
        is_bare(key),
        canonical(value),
        occurs_at(s, from, quoted(key) + seq![':'] + compact(value)),
        from + key.len() + 3 + compact(value).len() < s.len(),
        s[from + key.len() + 3 + compact(value).len()] == ',' || s[from + key.len() + 3 + compact(
            value,
        ).len()] == '}',
    ensures
        entries_from(s, from) == ({
            let behind = entries_from(s, from + key.len() + 3 + compact(value).len());
            (seq![(key, value)] + behind.0, behind.1)
        }),
    decreases value, 1nat,
{
    let cv = compact(value);
    let field = quoted(key) + seq![':'] + cv;
    let colon = from + key.len() + 2;
    let start = colon + 1;
    let m = start + cv.len();
    assert(field =~= seq!['"'] + ((key + seq!['"']) + (seq![':'] + cv)));
    lemma_occurs_split(s, from, seq!['"'], (key + seq!['"']) + (seq![':'] + cv));
    lemma_occurs_split(s, from + 1, key + seq!['"'], seq![':'] + cv);
    lemma_occurs_split(s, colon, seq![':'], cv);
    lemma_occurs_index(s, from, seq!['"'], 0);
    lemma_occurs_index(s, colon, seq![':'], 0);
    lemma_read_text(s, from + 1, key);
    lemma_read_value(s, start, value);
    let end = start + taken(value);
    lemma_entries_skip_letters(s, end, m);
    assert(parse_value(s, start) == (value, end));
}

/// The compact texts of entries, with commas between them and a closing
/// brace behind them, are read back as those entries.
pub proof fn lemma_read_entries(s: Seq<char>, from: int, entries: Seq<(Seq<char>, Value)>)
    requires
        forall|k: int|
            0 <= k < entries.len() ==> is_bare((#[trigger] entries[k]).0) && canonical(
                entries[k].1,
            ),
        occurs_at(s, from, join(compact_fields(entries), seq![',']) + seq!['}']),
    ensures
        entries_from(s, from) == (
            entries,
            from + join(compact_fields(entries), seq![',']).len() + 1,
        ),
    decreases entries, 1nat,
{
    let sep = seq![','];
    let parts = compact_fields(entries);
    let inner = join(parts, sep);
    let whole = inner + seq!['}'];
    if entries.len() == 0 {
        lemma_occurs_index(s, from, whole, 0);
    } else {
        let key = entries[0].0;
        let value = entries[0].1;
        let rest = entries.drop_first();
        let field = quoted(key) + seq![':'] + compact(value);
        assert(compact_fields(rest) =~= parts.drop_first());
        let rest_inner = join(compact_fields(rest), sep);
        lemma_join_front(parts, sep);
        let m = from + field.len();
        if entries.len() == 1 {
            lemma_occurs_split(s, from, field, seq!['}']);
            lemma_occurs_index(s, m, seq!['}'], 0);
            lemma_read_entry(s, from, key, value);
        } else {
            assert(whole =~= field + (sep + (rest_inner + seq!['}'])));
            lemma_occurs_split(s, from, field, sep + (rest_inner + seq!['}']));
            lemma_occurs_split(s, m, sep, rest_inner + seq!['}']);
            lemma_occurs_index(s, m, sep, 0);
            lemma_read_entry(s, from, key, value);
            lemma_read_entries(s, m + 1, rest);
        }
    }
}

/// A canonical value has no string that looks like a document.
pub proof fn lemma_canonical_is_settled(v: Value)
    requires
        canonical(v),
    ensures
        settled(v),
    decreases v,
{
    match v {
        Value::Array(items) => {
            assert forall|k: int| 0 <= k < items.len() implies settled(#[trigger] items[k]) by {
                lemma_canonical_is_settled(items[k]);
            }
        },
        Value::Object(entries) => {
            assert forall|k: int| 0 <= k < entries.len() implies settled(
                (#[trigger] entries[k]).1,
            ) by {
                lemma_canonical_is_settled(entries[k].1);
            }
        },
        _ => {},
    }
}

/// The compact text of a canonical value is repaired to that value, and so
/// to itself: what is already canonical comes back unchanged.
pub proof fn lemma_compact_is_fixed(v: Value)
    requires
        canonical(v),
    ensures
        repaired(compact(v)) == v,
        compact(repaired(compact(v))) == compact(v),
{
    let c = compact(v);
    lemma_compact_ends(v);
    lemma_trim_of_tight(c);
    lemma_read_value(c, 0, v);
    lemma_canonical_is_settled(v);
    lemma_deserialize_of_settled(v);
}

/// Whether no string and no key of `v` holds a quote or a backslash.
pub open spec fn bare_strings(v: Value) -> bool
    decreases v,
{
    match v {
        Value::Text(text) => is_bare(text),
        Value::Array(items) => forall|k: int|
            0 <= k < items.len() ==> bare_strings(#[trigger] items[k]),
        Value::Object(entries) => forall|k: int|
            0 <= k < entries.len() ==> is_bare((#[trigger] entries[k]).0) && bare_strings(
                entries[k].1,
            ),
        _ => true,
    }
}

/// A well-formed value is canonical if its numbers are canonical, its
/// strings hold no quote or backslash, and none of them looks like a
/// document.
pub proof fn lemma_canonical(v: Value)
    requires
        v.wf(),
        canonical_numbers(v),
        bare_strings(v),
        settled(v),
    ensures
        canonical(v),
    decreases v,
{
    match v {
        Value::Array(items) => {
            assert forall|k: int| 0 <= k < items.len() implies canonical(#[trigger] items[k]) by {
                lemma_canonical(items[k]);
            }
        },
        Value::Object(entries) => {
            assert forall|k: int| 0 <= k < entries.len() implies is_bare(
                (#[trigger] entries[k]).0,
            ) && canonical(entries[k].1) by {
                lemma_canonical(entries[k].1);
            }
        },
        _ => {},
    }
}

/// To repair twice is to repair once: the compact text of what an input is
/// repaired to is repaired to the same value, provided that no string and
/// no key of that value holds a quote or a backslash.
pub proof fn lemma_repair_is_stable(input: Seq<char>)
    requires
        bare_strings(repaired(input)),
    ensures
        repaired(compact(repaired(input))) == repaired(input),
{
    let v = repaired(input);
    lemma_repaired_is_well_formed(input);
    lemma_repaired_numbers(input);
    lemma_deserialize_settles(document(trim(input)));
    lemma_canonical(v);
    lemma_compact_is_fixed(v);
}

} // verus!
