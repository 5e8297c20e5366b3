//! The lenient grammar: which value a text stands for.
//!
//! Every text stands for a value. Each function here reads `s` from a
//! position on and gives what it read together with the position after it.

use vstd::prelude::*;
use crate::chars::{is_digit, is_number_char};
use crate::escape::escape_at;
use crate::number::canonical_number;
use crate::text::{lemma_skip_spaces, skip_spaces};
use crate::value::{keep_last, lemma_keep_last, Value};

verus! {

/// The end of the run of number characters that starts at `from`.
pub open spec fn number_end(s: Seq<char>, from: int) -> int
    decreases s.len() - from,
{
    if 0 <= from < s.len() && is_number_char(s[from]) {
        number_end(s, from + 1)
    } else {
        from
    }
}

/// The first position at or after `from` that holds a comma or a closing
/// bracket, or the length of `s`.
pub open spec fn next_separator(s: Seq<char>, from: int) -> int
    decreases s.len() - from,
{
    if 0 <= from < s.len() && s[from] != ',' && s[from] != ']' {
        next_separator(s, from + 1)
    } else {
        from
    }
}

/// The rest of a string literal whose opening quote stands before `from`:
/// its decoded text and the position after it.
///
/// The literal ends with the next quote that no backslash escapes, or with
/// the text. A backslash and what follows it stand for what
/// [`escape_at`] says; a backslash that ends the text stands for nothing.
pub open spec fn text_from(s: Seq<char>, from: int) -> (Seq<char>, int)
    decreases s.len() - from,
{
    if !(0 <= from < s.len()) {
        (Seq::empty(), from)
    } else if s[from] == '"' {
        (Seq::empty(), from + 1)
    } else if s[from] == '\\' {
        if from + 1 < s.len() {
            let (piece, next) = escape_at(s, from + 1);
            let (rest, end) = text_from(s, next);
            (piece + rest, end)
        } else {
            (Seq::empty(), from + 1)
        }
    } else {
        let (rest, end) = text_from(s, from + 1);
        (seq![s[from]] + rest, end)
    }
}

/// A string literal ends after where it was entered and inside the text,
/// and has read at least as many characters as it holds.
pub proof fn lemma_text_from(s: Seq<char>, from: int)
    requires
        0 <= from <= s.len(),
    ensures
        from <= text_from(s, from).1 <= s.len(),
        text_from(s, from).0.len() <= text_from(s, from).1 - from,
    decreases s.len() - from,
{
    if from < s.len() && s[from] != '"' {
        if s[from] == '\\' {
            if from + 1 < s.len() {
                lemma_text_from(s, escape_at(s, from + 1).1);
            }
        } else {
            lemma_text_from(s, from + 1);
        }
    }
}

/// The value that starts with the character at `at`, and the position
/// after it.
///
/// The first character decides: `n`, `t` and `f`, in either case, stand
/// for `null`, `true` and `false` and are read alone; a digit, a minus
/// sign or a decimal point opens a number, which is the whole run of
/// number characters; a quote opens a string, a bracket an array, a brace
/// an object. Any other character is read and stands for `null`.
pub open spec fn value_at(s: Seq<char>, at: int) -> (Value, int)
    decreases s.len() - at, 0nat,
{
    if !(0 <= at < s.len()) {
        (Value::Null, at)
    } else {
        let c = s[at];
        if c == 'n' || c == 'N' {
            (Value::Null, at + 1)
        } else if c == 't' || c == 'T' {
            (Value::True, at + 1)
        } else if c == 'f' || c == 'F' {
            (Value::False, at + 1)
        } else if is_digit(c) || c == '-' || c == '.' {
            let end = number_end(s, at);
            (Value::Number(canonical_number(s.subrange(at, end))), end)
        } else if c == '"' {
            let (text, end) = text_from(s, at + 1);
            (Value::Text(text), end)
        } else if c == '[' {
            let (items, end) = items_from(s, at + 1);
            (Value::Array(items), end)
        } else if c == '{' {
            let (entries, end) = entries_from(s, at + 1);
            (Value::Object(keep_last(entries)), end)
        } else {
            (Value::Null, at + 1)
        }
    }
}

/// The value that follows the white space at `from`, and the position
/// after it; `null` where the text ends.
pub open spec fn parse_value(s: Seq<char>, from: int) -> (Value, int)
    decreases s.len() - from, 1nat,
{
    proof {
        if 0 <= from <= s.len() {
            lemma_skip_spaces(s, from);
        }
    }
    value_at(s, skip_spaces(s, from))
}

/// The items of an array whose opening bracket stands before `from`, and
/// the position after the array.
///
/// The array ends with its closing bracket or with the text. A comma is
/// passed over wherever it stands. After an item, everything up to the
/// next comma or closing bracket is passed over.
///
/// An item always ends behind its first character and inside the text
/// ([`lemma_value_at_advances`]): the test on `next` never fails, and is
/// there to show that the definition comes to an end.
pub open spec fn items_from(s: Seq<char>, from: int) -> (Seq<Value>, int)
    decreases s.len() - from, 2nat,
{
    let at = skip_spaces(s, from);
    if !(0 <= from <= at < s.len()) {
        (Seq::empty(), at)
    } else if s[at] == ']' {
        (Seq::empty(), at + 1)
    } else if s[at] == ',' {
        items_from(s, at + 1)
    } else {
        let (item, end) = value_at(s, at);
        let next = next_separator(s, end);
        if at < next <= s.len() {
            let (rest, after) = items_from(s, next);
            (seq![item] + rest, after)
        } else {
            (seq![item], next)
        }
    }
}

/// The entries of an object whose opening brace stands before `from`, in
/// the order in which they are written, and the position after the object.
///
/// The object ends with its closing brace or with the text. An entry is a
/// string literal, a colon if one follows, and a value. Where a key is
/// expected, any character that opens no string is passed over.
///
/// An entry always ends behind its opening quote and inside the text
/// ([`lemma_entry_positions`]): the test on `end` never fails, and is
/// there to show that the definition comes to an end.
pub open spec fn entries_from(s: Seq<char>, from: int) -> (Seq<(Seq<char>, Value)>, int)
    decreases s.len() - from, 2nat,
{
    let at = skip_spaces(s, from);
    if !(0 <= from <= at < s.len()) {
        (Seq::empty(), at)
    } else if s[at] == '}' {
        (Seq::empty(), at + 1)
    } else if s[at] == '"' {
        let (key, after_key) = text_from(s, at + 1);
        let colon = skip_spaces(s, after_key);
        let start = if 0 <= colon < s.len() && s[colon] == ':' {
            colon + 1
        } else {
            colon
        };
        proof {
            lemma_text_from(s, at + 1);
            lemma_skip_spaces(s, after_key);
        }
        let (value, end) = parse_value(s, start);
        if at < end <= s.len() {
            let (rest, after) = entries_from(s, end);
            (seq![(key, value)] + rest, after)
        } else {
            (seq![(key, value)], end)
        }
    } else {
        entries_from(s, at + 1)
    }
}

/// A run of number characters ends at or after where it starts and inside
/// the text, on a character that is none, and holds nothing else.
pub proof fn lemma_number_end(s: Seq<char>, from: int)
    requires
        0 <= from <= s.len(),
    ensures
        from <= number_end(s, from) <= s.len(),
        number_end(s, from) < s.len() ==> !is_number_char(s[number_end(s, from)]),
        forall|k: int| from <= k < number_end(s, from) ==> is_number_char(#[trigger] s[k]),
    decreases s.len() - from,
{
    if from < s.len() && is_number_char(s[from]) {
        lemma_number_end(s, from + 1);
    }
}

/// `next_separator` stops at or after where it started and inside the
/// text, on a comma or a closing bracket, and has passed none.
pub proof fn lemma_next_separator(s: Seq<char>, from: int)
    requires
        0 <= from <= s.len(),
    ensures
        from <= next_separator(s, from) <= s.len(),
        next_separator(s, from) < s.len() ==> s[next_separator(s, from)] == ',' || s[next_separator(
            s,
            from,
        )] == ']',
        forall|k: int|
            from <= k < next_separator(s, from) ==> #[trigger] s[k] != ',' && s[k] != ']',
    decreases s.len() - from,
{
    if from < s.len() && s[from] != ',' && s[from] != ']' {
        lemma_next_separator(s, from + 1);
    }
}

/// A value that starts inside the text reads at least one character and
/// ends inside the text.
pub proof fn lemma_value_at_advances(s: Seq<char>, at: int)
    requires
        0 <= at < s.len(),
    ensures
        at < value_at(s, at).1 <= s.len(),
    decreases s.len() - at, 0nat,
{
    let c = s[at];
    if is_digit(c) || c == '-' || c == '.' {
        lemma_number_end(s, at + 1);
    } else if c == '"' {
        lemma_text_from(s, at + 1);
    } else if c == '[' {
        lemma_items_from_ends(s, at + 1);
    } else if c == '{' {
        lemma_entries_from_ends(s, at + 1);
    }
}

/// A value ends at or after where it was looked for and inside the text.
pub proof fn lemma_parse_value_ends(s: Seq<char>, from: int)
    requires
        0 <= from <= s.len(),
    ensures
        from <= parse_value(s, from).1 <= s.len(),
    decreases s.len() - from, 1nat,
{
    lemma_skip_spaces(s, from);
    if skip_spaces(s, from) < s.len() {
        lemma_value_at_advances(s, skip_spaces(s, from));
    }
}

/// An array ends at or after where it was entered and inside the text.
pub proof fn lemma_items_from_ends(s: Seq<char>, from: int)
    requires
        0 <= from <= s.len(),
    ensures
        from <= items_from(s, from).1 <= s.len(),
    decreases s.len() - from, 2nat,
{
    lemma_skip_spaces(s, from);
    let at = skip_spaces(s, from);
    if at < s.len() && s[at] != ']' {
        if s[at] == ',' {
            lemma_items_from_ends(s, at + 1);
        } else {
            lemma_value_at_advances(s, at);
            lemma_next_separator(s, value_at(s, at).1);
            lemma_items_from_ends(s, next_separator(s, value_at(s, at).1));
        }
    }
}

/// The positions that an entry of an object passes: the end of its key,
/// the start of its value and its own end follow one another inside the
/// text.
pub proof fn lemma_entry_positions(s: Seq<char>, at: int)
    requires
        0 <= at < s.len(),
        s[at] == '"',
    ensures
        ({
            let after_key = text_from(s, at + 1).1;
            let colon = skip_spaces(s, after_key);
            let start = if 0 <= colon < s.len() && s[colon] == ':' {
                colon + 1
            } else {
                colon
            };
            at < after_key <= colon <= start <= parse_value(s, start).1 <= s.len()
        }),
    decreases s.len() - at, 0nat,
{
    lemma_text_from(s, at + 1);
    let after_key = text_from(s, at + 1).1;
    lemma_skip_spaces(s, after_key);
    let colon = skip_spaces(s, after_key);
    let start = if 0 <= colon < s.len() && s[colon] == ':' {
        colon + 1
    } else {
        colon
    };
    lemma_parse_value_ends(s, start);
}

/// An object ends at or after where it was entered and inside the text.
pub proof fn lemma_entries_from_ends(s: Seq<char>, from: int)
    requires
        0 <= from <= s.len(),
    ensures
        from <= entries_from(s, from).1 <= s.len(),
    decreases s.len() - from, 2nat,
{
    lemma_skip_spaces(s, from);
    let at = skip_spaces(s, from);
    if at < s.len() && s[at] != '}' {
        if s[at] == '"' {
            lemma_entry_positions(s, at);
            let after_key = text_from(s, at + 1).1;
            let colon = skip_spaces(s, after_key);
            let start = if 0 <= colon < s.len() && s[colon] == ':' {
                colon + 1
            } else {
                colon
            };
            lemma_entries_from_ends(s, parse_value(s, start).1);
        } else {
            lemma_entries_from_ends(s, at + 1);
        }
    }
}

/// Whether each of `items` is well formed.
pub open spec fn all_wf(items: Seq<Value>) -> bool {
    forall|k: int| 0 <= k < items.len() ==> (#[trigger] items[k]).wf()
}

/// Whether the value of each of `entries` is well formed.
pub open spec fn all_values_wf(entries: Seq<(Seq<char>, Value)>) -> bool {
    forall|k: int| 0 <= k < entries.len() ==> (#[trigger] entries[k]).1.wf()
}

/// The object that is given entries with well-formed values is well
/// formed.
pub proof fn lemma_object_wf(raw: Seq<(Seq<char>, Value)>)
    requires
        all_values_wf(raw),
    ensures
        Value::Object(keep_last(raw)).wf(),
{
    lemma_keep_last(raw);
    let kept = keep_last(raw);
    assert forall|k: int| 0 <= k < kept.len() implies (#[trigger] kept[k]).1.wf() by {
        assert(kept.contains(kept[k]));
    }
}

/// A value that is read from a text is well formed: none of its objects
/// holds a key twice.
pub proof fn lemma_value_at_wf(s: Seq<char>, at: int)
    ensures
        value_at(s, at).0.wf(),
    decreases s.len() - at, 0nat,
{
    if 0 <= at < s.len() {
        let c = s[at];
        if c == '[' {
            lemma_items_from_wf(s, at + 1);
        } else if c == '{' {
            lemma_entries_from_wf(s, at + 1);
            lemma_object_wf(entries_from(s, at + 1).0);
        }
    }
}

/// A value that is read from a text is well formed.
pub proof fn lemma_parse_value_wf(s: Seq<char>, from: int)
    ensures
        parse_value(s, from).0.wf(),
    decreases s.len() - from, 1nat,
{
    if 0 <= from <= s.len() {
        lemma_skip_spaces(s, from);
    }
    lemma_value_at_wf(s, skip_spaces(s, from));
}

/// The items of an array that is read from a text are well formed.
pub proof fn lemma_items_from_wf(s: Seq<char>, from: int)
    ensures
        all_wf(items_from(s, from).0),
    decreases s.len() - from, 2nat,
{
    let at = skip_spaces(s, from);
    if 0 <= from <= at < s.len() && s[at] != ']' {
        if s[at] == ',' {
            lemma_items_from_wf(s, at + 1);
        } else {
            lemma_value_at_wf(s, at);
            let (item, end) = value_at(s, at);
            let next = next_separator(s, end);
            if at < next <= s.len() {
                lemma_items_from_wf(s, next);
            }
        }
    }
}

/// The values of the entries of an object that is read from a text are
/// well formed.
pub proof fn lemma_entries_from_wf(s: Seq<char>, from: int)
    ensures
        all_values_wf(entries_from(s, from).0),
    decreases s.len() - from, 2nat,
{
    let at = skip_spaces(s, from);
    if 0 <= from <= at < s.len() && s[at] != '}' {
        if s[at] == '"' {
            lemma_entry_positions(s, at);
            let (key, after_key) = text_from(s, at + 1);
            let colon = skip_spaces(s, after_key);
            let start = if 0 <= colon < s.len() && s[colon] == ':' {
                colon + 1
            } else {
                colon
            };
            lemma_parse_value_wf(s, start);
            let (value, end) = parse_value(s, start);
            if at < end <= s.len() {
                lemma_entries_from_wf(s, end);
            }
        } else {
            lemma_entries_from_wf(s, at + 1);
        }
    }
}

/// The value that the text `s` stands for.
pub open spec fn document(s: Seq<char>) -> Value {
    parse_value(s, 0).0
}

} // verus!
