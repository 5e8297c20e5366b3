//! Documents inside strings: a string whose trimmed text opens with a
//! brace or a bracket is read as a document of its own, and so are the
//! strings of that document.

use vstd::prelude::*;
use crate::grammar::{
    document, entries_from, items_from, lemma_entry_positions, lemma_next_separator,
    lemma_parse_value_wf, lemma_text_from, lemma_value_at_advances, next_separator, parse_value,
    text_from, value_at,
};
use crate::parser::Parser;
use crate::text::{
    lemma_skip_spaces, lemma_trim_is_tight, looks_nested, skip_spaces, to_chars, trim, trimmed,
};
use crate::value::{
    entries_view, items_view, keep_last, key_position, lemma_key_position, without_key,
    Json, Value,
};

verus! {

/// The size of `v`: one for each value, and one for each character of a
/// string.
pub open spec fn mass(v: Value) -> nat
    decreases v, 1nat,
{
    match v {
        Value::Text(text) => text.len() + 1,
        Value::Array(items) => 1 + items_mass(items),
        Value::Object(entries) => 1 + entries_mass(entries),
        _ => 1,
    }
}

/// The sizes of `items`, added up.
pub open spec fn items_mass(items: Seq<Value>) -> nat
    decreases items, 0nat,
{
    if items.len() == 0 {
        0
    } else {
        items_mass(items.drop_last()) + mass(items.last())
    }
}

/// The sizes of the values of `entries`, added up.
pub open spec fn entries_mass(entries: Seq<(Seq<char>, Value)>) -> nat
    decreases entries, 0nat,
{
    if entries.len() == 0 {
        0
    } else {
        entries_mass(entries.drop_last()) + mass(entries.last().1)
    }
}

/// `v` with every string that looks like a document replaced by that
/// document, read by the lenient grammar and treated in the same way.
pub open spec fn deserialize(v: Value) -> Value
    decreases mass(v), 0nat,
{
    match v {
        Value::Text(text) => if looks_nested(text) {
            proof {
                lemma_trim_is_tight(text);
                lemma_document_mass(trim(text));
            }
            deserialize(document(trim(text)))
        } else {
            v
        },
        Value::Array(items) => Value::Array(deserialize_items(items)),
        Value::Object(entries) => Value::Object(deserialize_entries(entries)),
        _ => v,
    }
}

/// Each of `items` after [`deserialize`].
pub open spec fn deserialize_items(items: Seq<Value>) -> Seq<Value>
    decreases items_mass(items), 1nat,
{
    if items.len() == 0 {
        Seq::empty()
    } else {
        deserialize_items(items.drop_last()).push(deserialize(items.last()))
    }
}

/// Each of `entries` with its key as it is and its value after
/// [`deserialize`].
pub open spec fn deserialize_entries(entries: Seq<(Seq<char>, Value)>) -> Seq<(Seq<char>, Value)>
    decreases entries_mass(entries), 1nat,
{
    if entries.len() == 0 {
        Seq::empty()
    } else {
        deserialize_entries(entries.drop_last()).push(
            (entries.last().0, deserialize(entries.last().1)),
        )
    }
}

/// The sizes of two runs of items add up.
pub proof fn lemma_items_mass_add(a: Seq<Value>, b: Seq<Value>)
    ensures
        items_mass(a + b) == items_mass(a) + items_mass(b),
    decreases b.len(),
{
    if b.len() > 0 {
        lemma_items_mass_add(a, b.drop_last());
        assert((a + b).drop_last() =~= a + b.drop_last());
    }
}

/// The sizes of two runs of entries add up.
pub proof fn lemma_entries_mass_add(a: Seq<(Seq<char>, Value)>, b: Seq<(Seq<char>, Value)>)
    ensures
        entries_mass(a + b) == entries_mass(a) + entries_mass(b),
    decreases b.len(),
{
    if b.len() > 0 {
        lemma_entries_mass_add(a, b.drop_last());
        assert((a + b).drop_last() =~= a + b.drop_last());
    }
}

/// An item is no larger than the items together.
pub proof fn lemma_item_mass(items: Seq<Value>, k: int)
    requires
        0 <= k < items.len(),
    ensures
        mass(items[k]) <= items_mass(items),
    decreases items.len(),
{
    if k < items.len() - 1 {
        lemma_item_mass(items.drop_last(), k);
    }
}

/// The value of an entry is no larger than the entries together.
pub proof fn lemma_entry_mass(entries: Seq<(Seq<char>, Value)>, k: int)
    requires
        0 <= k < entries.len(),
    ensures
        mass(entries[k].1) <= entries_mass(entries),
    decreases entries.len(),
{
    if k < entries.len() - 1 {
        lemma_entry_mass(entries.drop_last(), k);
    }
}

/// Entries without one of them are no larger.
pub proof fn lemma_remove_mass(entries: Seq<(Seq<char>, Value)>, k: int)
    requires
        0 <= k < entries.len(),
    ensures
        entries_mass(entries.remove(k)) <= entries_mass(entries),
    decreases entries.len(),
{
    if k < entries.len() - 1 {
        lemma_remove_mass(entries.drop_last(), k);
        assert(entries.remove(k).drop_last() =~= entries.drop_last().remove(k));
    }
}

/// An object is no larger than the entries it was given.
pub proof fn lemma_keep_last_mass(raw: Seq<(Seq<char>, Value)>)
    ensures
        entries_mass(keep_last(raw)) <= entries_mass(raw),
    decreases raw.len(),
{
    if raw.len() > 0 {
        let before = keep_last(raw.drop_last());
        lemma_keep_last_mass(raw.drop_last());
        lemma_key_position(before, raw.last().0, 0);
        let at = key_position(before, raw.last().0, 0);
        if at < before.len() {
            lemma_remove_mass(before, at);
        }
        assert(keep_last(raw).drop_last() =~= without_key(before, raw.last().0));
    }
}

/// A value is no larger than the text it was read from.
pub proof fn lemma_value_at_mass(s: Seq<char>, at: int)
    requires
        0 <= at < s.len(),
    ensures
        mass(value_at(s, at).0) <= value_at(s, at).1 - at,
    decreases s.len() - at, 0nat,
{
    let c = s[at];
    lemma_value_at_advances(s, at);
    if c == '"' {
        lemma_text_from(s, at + 1);
    } else if c == '[' {
        lemma_items_from_mass(s, at + 1);
    } else if c == '{' {
        lemma_entries_from_mass(s, at + 1);
        lemma_keep_last_mass(entries_from(s, at + 1).0);
    }
}

/// A value is no larger than the text it was read from; the `null` that
/// stands for the end of the text has size one.
pub proof fn lemma_parse_value_mass(s: Seq<char>, from: int)
    requires
        0 <= from <= s.len(),
    ensures
        mass(parse_value(s, from).0) <= parse_value(s, from).1 - from || (mass(
            parse_value(s, from).0,
        ) == 1 && parse_value(s, from).1 == s.len()),
        from <= parse_value(s, from).1 <= s.len(),
    decreases s.len() - from, 1nat,
{
    lemma_skip_spaces(s, from);
    if skip_spaces(s, from) < s.len() {
        lemma_value_at_mass(s, skip_spaces(s, from));
        lemma_value_at_advances(s, skip_spaces(s, from));
    }
}

/// The items of an array are no larger than the text they were read from.
pub proof fn lemma_items_from_mass(s: Seq<char>, from: int)
    requires
        0 <= from <= s.len(),
    ensures
        items_mass(items_from(s, from).0) <= items_from(s, from).1 - from,
    decreases s.len() - from, 2nat,
{
    lemma_skip_spaces(s, from);
    let at = skip_spaces(s, from);
    if at < s.len() && s[at] != ']' {
        if s[at] == ',' {
            lemma_items_from_mass(s, at + 1);
        } else {
            lemma_value_at_advances(s, at);
            lemma_value_at_mass(s, at);
            let (item, end) = value_at(s, at);
            lemma_next_separator(s, end);
            let next = next_separator(s, end);
            lemma_items_from_mass(s, next);
            lemma_items_mass_add(seq![item], items_from(s, next).0);
            assert(seq![item].drop_last() =~= Seq::<Value>::empty());
            assert(items_mass(Seq::<Value>::empty()) == 0);
        }
    }
}

/// The entries of an object are no larger than the text they were read
/// from.
pub proof fn lemma_entries_from_mass(s: Seq<char>, from: int)
    requires
        0 <= from <= s.len(),
    ensures
        entries_mass(entries_from(s, from).0) <= entries_from(s, from).1 - from,
    decreases s.len() - from, 2nat,
{
    lemma_skip_spaces(s, from);
    let at = skip_spaces(s, from);
    if at < s.len() && s[at] != '}' {
        if s[at] == '"' {
            lemma_entry_positions(s, at);
            let (key, after_key) = text_from(s, at + 1);
            let colon = skip_spaces(s, after_key);
            let start = if 0 <= colon < s.len() && s[colon] == ':' {
                colon + 1
            } else {
                colon
            };
            lemma_parse_value_mass(s, start);
            let (value, end) = parse_value(s, start);
            lemma_entries_from_mass(s, end);
            lemma_entries_mass_add(seq![(key, value)], entries_from(s, end).0);
            assert(seq![(key, value)].drop_last() =~= Seq::<(Seq<char>, Value)>::empty());
            assert(entries_mass(Seq::<(Seq<char>, Value)>::empty()) == 0);
        } else {
            lemma_entries_from_mass(s, at + 1);
        }
    }
}

/// The document that a text with at least one character stands for is no
/// larger than the text.
pub proof fn lemma_document_mass(s: Seq<char>)
    requires
        s.len() > 0,
    ensures
        mass(document(s)) <= s.len(),
{
    lemma_parse_value_mass(s, 0);
}

/// Whether no string of `v` looks like a document.
pub open spec fn settled(v: Value) -> bool
    decreases v,
{
    match v {
        Value::Text(text) => !looks_nested(text),
        Value::Array(items) => forall|k: int|
            0 <= k < items.len() ==> settled(#[trigger] items[k]),
        Value::Object(entries) => forall|k: int|
            0 <= k < entries.len() ==> settled((#[trigger] entries[k]).1),
        _ => true,
    }
}

/// `deserialize_items` treats each item by itself.
pub proof fn lemma_deserialize_items(items: Seq<Value>)
    ensures
        deserialize_items(items).len() == items.len(),
        forall|k: int|
            0 <= k < items.len() ==> (#[trigger] deserialize_items(items)[k]) == deserialize(
                items[k],
            ),
    decreases items.len(),
{
    if items.len() > 0 {
        lemma_deserialize_items(items.drop_last());
    }
}

/// `deserialize_entries` treats each value by itself and keeps the keys.
pub proof fn lemma_deserialize_entries(entries: Seq<(Seq<char>, Value)>)
    ensures
        deserialize_entries(entries).len() == entries.len(),
        forall|k: int|
            0 <= k < entries.len() ==> (#[trigger] deserialize_entries(entries)[k]) == (
                entries[k].0,
                deserialize(entries[k].1),
            ),
    decreases entries.len(),
{
    if entries.len() > 0 {
        lemma_deserialize_entries(entries.drop_last());
    }
}

/// After `deserialize` no string looks like a document.
pub proof fn lemma_deserialize_settles(v: Value)
    ensures
        settled(deserialize(v)),
    decreases mass(v),
{
    match v {
        Value::Text(text) => {
            if looks_nested(text) {
                lemma_trim_is_tight(text);
                lemma_document_mass(trim(text));
                lemma_deserialize_settles(document(trim(text)));
            }
        },
        Value::Array(items) => {
            lemma_deserialize_items(items);
            let done = deserialize_items(items);
            assert forall|k: int| 0 <= k < done.len() implies settled(#[trigger] done[k]) by {
                lemma_item_mass(items, k);
                lemma_deserialize_settles(items[k]);
            }
        },
        Value::Object(entries) => {
            lemma_deserialize_entries(entries);
            let done = deserialize_entries(entries);
            assert forall|k: int| 0 <= k < done.len() implies settled((#[trigger] done[k]).1) by {
                lemma_entry_mass(entries, k);
                lemma_deserialize_settles(entries[k].1);
            }
        },
        _ => {},
    }
}

/// Where no string looks like a document, `deserialize` changes nothing.
pub proof fn lemma_deserialize_of_settled(v: Value)
    requires
        settled(v),
    ensures
        deserialize(v) == v,
    decreases mass(v),
{
    match v {
        Value::Array(items) => {
            lemma_deserialize_items(items);
            let done = deserialize_items(items);
            assert forall|k: int| 0 <= k < done.len() implies done[k] == items[k] by {
                lemma_item_mass(items, k);
                lemma_deserialize_of_settled(items[k]);
            }
            assert(done =~= items);
        },
        Value::Object(entries) => {
            lemma_deserialize_entries(entries);
            let done = deserialize_entries(entries);
            assert forall|k: int| 0 <= k < done.len() implies done[k] == entries[k] by {
                lemma_entry_mass(entries, k);
                lemma_deserialize_of_settled(entries[k].1);
            }
            assert(done =~= entries);
        },
        _ => {},
    }
}

/// To unfold the documents inside strings a second time changes nothing:
/// `deserialize` of its own result is that result.
pub proof fn lemma_deserialize_idempotent(v: Value)
    ensures
        deserialize(deserialize(v)) == deserialize(v),
{
    lemma_deserialize_settles(v);
    lemma_deserialize_of_settled(deserialize(v));
}

/// `deserialize` keeps a tree well formed: no object of the result holds a
/// key twice.
pub proof fn lemma_deserialize_wf(v: Value)
    requires
        v.wf(),
    ensures
        deserialize(v).wf(),
    decreases mass(v),
{
    match v {
        Value::Text(text) => {
            if looks_nested(text) {
                lemma_trim_is_tight(text);
                lemma_document_mass(trim(text));
                lemma_parse_value_wf(trim(text), 0);
                lemma_deserialize_wf(document(trim(text)));
            }
        },
        Value::Array(items) => {
            lemma_deserialize_items(items);
            let done = deserialize_items(items);
            assert forall|k: int| 0 <= k < done.len() implies (#[trigger] done[k]).wf() by {
                lemma_item_mass(items, k);
                lemma_deserialize_wf(items[k]);
            }
        },
        Value::Object(entries) => {
            lemma_deserialize_entries(entries);
            let done = deserialize_entries(entries);
            assert forall|k: int| 0 <= k < done.len() implies (#[trigger] done[k]).1.wf() by {
                lemma_entry_mass(entries, k);
                lemma_deserialize_wf(entries[k].1);
            }
        },
        _ => {},
    }
}

/// The value that `input` is repaired to: the document that the trimmed
/// text stands for, with the documents inside its strings unfolded.
pub open spec fn repaired(input: Seq<char>) -> Value {
    deserialize(document(trim(input)))
}

/// Whatever the input, no object of the value it is repaired to holds a
/// key twice.
pub proof fn lemma_repaired_is_well_formed(input: Seq<char>)
    ensures
        repaired(input).wf(),
{
    lemma_parse_value_wf(trim(input), 0);
    lemma_deserialize_wf(document(trim(input)));
}

/// Whatever the input, the value it is repaired to has no document left
/// inside a string: to unfold once more changes nothing.
pub proof fn lemma_repaired_is_unfolded(input: Seq<char>)
    ensures
        deserialize(repaired(input)) == repaired(input),
{
    lemma_deserialize_idempotent(document(trim(input)));
}

impl Json {
    /// Replaces every string of the tree that looks like a document by that
    /// document: a string whose trimmed text opens with a brace or a
    /// bracket is read by the lenient grammar, and what was read is
    /// treated in the same way. Everything else stays as it is.
    pub fn deserialize_all(self) -> (out: Json)
        ensures
            out@ == deserialize(self@),
            deserialize(out@) == out@,
            self.wf() ==> out.wf(),
        decreases mass(self@), 0nat,
    {
        proof {
            lemma_deserialize_idempotent(self@);
            if self.wf() {
                lemma_deserialize_wf(self@);
            }
        }
        match self {
            Json::String(val) => {
                let core = trimmed(to_chars(val.as_str()));
                if core.len() > 0 && (core[0] == '{' || core[0] == '[') {
                    let mut parser = Parser::over(core);
                    let parsed = parser.parse_and_fix();
                    proof {
                        lemma_trim_is_tight(val@);
                        lemma_document_mass(trim(val@));
                    }
                    parsed.deserialize_all()
                } else {
                    Json::String(val)
                }
            },
            Json::Array(arr) => {
                let ghost items = items_view(arr@);
                proof {
                    Json::lemma_view_array(arr);
                }
                let mut out: Vec<Json> = Vec::new();
                for item in iter: arr
                    invariant
                        items == items_view(iter.seq()),
                        mass(self@) == 1 + items_mass(items),
                        items_view(out@) == deserialize_items(items.take(iter.index())),
                {
                    let ghost k = iter.index();
                    proof {
                        lemma_item_mass(items, k);
                        assert(items.take(k + 1).drop_last() =~= items.take(k));
                    }
                    let done = item.deserialize_all();
                    out.push(done);
                }
                proof {
                    assert(items.take(items.len() as int) =~= items);
                    Json::lemma_view_array(out);
                }
                Json::Array(out)
            },
            Json::Object(obj) => {
                let ghost entries = entries_view(obj@);
                proof {
                    Json::lemma_view_object(obj);
                }
                let mut out: Vec<(String, Json)> = Vec::new();
                for entry in iter: obj
                    invariant
                        entries == entries_view(iter.seq()),
                        mass(self@) == 1 + entries_mass(entries),
                        entries_view(out@) == deserialize_entries(entries.take(iter.index())),
                {
                    let ghost k = iter.index();
                    proof {
                        lemma_entry_mass(entries, k);
                        assert(entries.take(k + 1).drop_last() =~= entries.take(k));
                    }
                    let (key, value) = entry;
                    let done = value.deserialize_all();
                    out.push((key, done));
                }
                proof {
                    assert(entries.take(entries.len() as int) =~= entries);
                    Json::lemma_view_object(out);
                }
                Json::Object(out)
            },
            other => other,
        }
    }
}

} // verus!
