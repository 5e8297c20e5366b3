//! The serializer: a value tree written out as text, indented or compact.
//!
//! The text of a string and of a key stands between quotes as it is stored;
//! nothing in it is escaped.

use vstd::prelude::*;
use crate::value::{entries_view, items_view, Json, Value};

verus! {

/// `parts` one after the other with `sep` between each two.
pub open spec fn join(parts: Seq<Seq<char>>, sep: Seq<char>) -> Seq<char>
    decreases parts.len(),
{
    if parts.len() == 0 {
        Seq::empty()
    } else if parts.len() == 1 {
        parts[0]
    } else {
        join(parts.drop_last(), sep) + sep + parts.last()
    }
}

/// `text` between double quotes.
pub open spec fn quoted(text: Seq<char>) -> Seq<char> {
    seq!['"'] + text + seq!['"']
}

/// The white space that opens a line `level` levels deep: three spaces for
/// each level.
pub open spec fn indentation(level: nat) -> Seq<char> {
    Seq::new(3 * level, |k: int| ' ')
}

/// The word `null`.
pub open spec fn null_word() -> Seq<char> {
    seq!['n', 'u', 'l', 'l']
}

/// The word `true`.
pub open spec fn true_word() -> Seq<char> {
    seq!['t', 'r', 'u', 'e']
}

/// The word `false`.
pub open spec fn false_word() -> Seq<char> {
    seq!['f', 'a', 'l', 's', 'e']
}

/// The compact text of `v`: no white space, the items of an array and the
/// entries of an object in their order with a comma between each two, a
/// colon between a key and its value.
pub open spec fn compact(v: Value) -> Seq<char>
    decreases v, 1nat,
{
    match v {
        Value::Null => null_word(),
        Value::True => true_word(),
        Value::False => false_word(),
        Value::Number(literal) => literal,
        Value::Text(text) => quoted(text),
        Value::Array(items) => seq!['['] + join(compact_parts(items), seq![',']) + seq![']'],
        Value::Object(entries) => seq!['{'] + join(compact_fields(entries), seq![',']) + seq!['}'],
    }
}

/// The compact texts of `items`, one for each.
pub open spec fn compact_parts(items: Seq<Value>) -> Seq<Seq<char>>
    decreases items, 0nat,
{
    Seq::new(
        items.len(),
        |k: int|
            if 0 <= k < items.len() {
                compact(items[k])
            } else {
                Seq::empty()
            },
    )
}

/// The compact texts of `entries`, one for each: the key between quotes, a
/// colon, the value.
pub open spec fn compact_fields(entries: Seq<(Seq<char>, Value)>) -> Seq<Seq<char>>
    decreases entries, 0nat,
{
    Seq::new(
        entries.len(),
        |k: int|
            if 0 <= k < entries.len() {
                quoted(entries[k].0) + seq![':'] + compact(entries[k].1)
            } else {
                Seq::empty()
            },
    )
}

/// The indented text of `v`, where `v` opens on a line `level` levels
/// deep.
///
/// An array or an object without items is `[]` or `{}`. Otherwise each item
/// stands on a line of its own, one level deeper, with a comma after each
/// but the last, and the closing bracket on a line of its own at `level`.
/// A key is followed by a colon and one space.
pub open spec fn pretty(v: Value, level: nat) -> Seq<char>
    decreases v, 1nat,
{
    match v {
        Value::Null => null_word(),
        Value::True => true_word(),
        Value::False => false_word(),
        Value::Number(literal) => literal,
        Value::Text(text) => quoted(text),
        Value::Array(items) => if items.len() == 0 {
            seq!['[', ']']
        } else {
            seq!['[', '\n'] + join(pretty_lines(items, level), seq![',', '\n']) + seq!['\n']
                + indentation(level) + seq![']']
        },
        Value::Object(entries) => if entries.len() == 0 {
            seq!['{', '}']
        } else {
            seq!['{', '\n'] + join(pretty_fields(entries, level), seq![',', '\n']) + seq!['\n']
                + indentation(level) + seq!['}']
        },
    }
}

/// The lines of `items` inside an array that opens `level` levels deep.
pub open spec fn pretty_lines(items: Seq<Value>, level: nat) -> Seq<Seq<char>>
    decreases items, 0nat,
{
    Seq::new(
        items.len(),
        |k: int|
            if 0 <= k < items.len() {
                indentation(level + 1) + pretty(items[k], level + 1)
            } else {
                Seq::empty()
            },
    )
}

/// The lines of `entries` inside an object that opens `level` levels deep.
pub open spec fn pretty_fields(entries: Seq<(Seq<char>, Value)>, level: nat) -> Seq<Seq<char>>
    decreases entries, 0nat,
{
    Seq::new(
        entries.len(),
        |k: int|
            if 0 <= k < entries.len() {
                indentation(level + 1) + quoted(entries[k].0) + seq![':', ' '] + pretty(
                    entries[k].1,
                    level + 1,
                )
            } else {
                Seq::empty()
            },
    )
}

/// Joining one part more: the separator comes before it unless it is the
/// first.
pub proof fn lemma_join_next(parts: Seq<Seq<char>>, sep: Seq<char>, k: int)
    requires
        0 <= k < parts.len(),
    ensures
        join(parts.take(k + 1), sep) == if k == 0 {
            parts[0]
        } else {
            join(parts.take(k), sep) + sep + parts[k]
        },
{
    assert(parts.take(k + 1).drop_last() =~= parts.take(k));
}

/// Appends the characters of `v` to `out`.
fn append_chars(out: &mut String, v: &Vec<char>)
    ensures
        final(out)@ == old(out)@ + v@,
{
    let mut k: usize = 0;
    while k < v.len()
        invariant
            k <= v.len(),
            out@ == old(out)@ + v@.take(k as int),
        decreases v.len() - k,
    {
        out.push(v[k]);
        k += 1;
    }
}

/// Appends `text` between double quotes to `out`.
fn append_quoted(out: &mut String, text: &String)
    ensures
        final(out)@ == old(out)@ + quoted(text@),
{
    out.push('"');
    out.append(text.as_str());
    out.push('"');
}

/// Appends the word of a value without content to `out`.
fn append_word(out: &mut String, json: &Json)
    requires
        json is Null || json is True || json is False,
    ensures
        final(out)@ == old(out)@ + compact(json@),
        forall|level: nat| pretty(json@, level) == compact(json@),
{
    match json {
        Json::True => {
            out.append("true");
            proof {
                reveal_strlit("true");
            }
        },
        Json::False => {
            out.append("false");
            proof {
                reveal_strlit("false");
            }
        },
        _ => {
            out.append("null");
            proof {
                reveal_strlit("null");
            }
        },
    }
}

/// Makes the margin one level deeper.
fn deepen(margin: &mut Vec<char>, Ghost(level): Ghost<nat>)
    requires
        old(margin)@ == indentation(level),
    ensures
        final(margin)@ == indentation(level + 1),
{
    margin.push(' ');
    margin.push(' ');
    margin.push(' ');
}

/// Takes the margin back by one level.
fn shallow(margin: &mut Vec<char>, Ghost(level): Ghost<nat>)
    requires
        old(margin)@ == indentation(level + 1),
    ensures
        final(margin)@ == indentation(level),
{
    let shorter = margin.len() - 3;
    margin.truncate(shorter);
}

/// An item of an array is smaller than the array.
pub proof fn lemma_item_is_smaller(json: &Json, k: int)
    requires
        json is Array,
        0 <= k < json->Array_0.len(),
    ensures
        decreases_to!(json => json->Array_0[k]),
{
}

/// The value of an entry of an object is smaller than the object.
pub proof fn lemma_entry_is_smaller(json: &Json, k: int)
    requires
        json is Object,
        0 <= k < json->Object_0.len(),
    ensures
        decreases_to!(json => json->Object_0[k].1),
{
}

impl Json {
    /// Appends the compact text of the tree to `out`.
    fn write_compact(&self, out: &mut String)
        ensures
            final(out)@ == old(out)@ + compact(self@),
        decreases self,
    {
        match self {
            Json::Number(literal) => {
                out.append(literal.as_str());
            },
            Json::String(text) => {
                append_quoted(out, text);
            },
            Json::Array(items) => {
                let ghost parts = compact_parts(items_view(items@));
                let ghost sep = seq![','];
                proof {
                    Json::lemma_view_array(*items);
                }
                out.push('[');
                let ghost opened = out@;
                let mut k: usize = 0;
                while k < items.len()
                    invariant
                        k <= items.len(),
                        parts == compact_parts(items_view(items@)),
                        sep == seq![','],
                        out@ == opened + join(parts.take(k as int), sep),
                        *self == Json::Array(*items),
                    decreases items.len() - k,
                {
                    if k > 0 {
                        out.push(',');
                    }
                    proof {
                        lemma_item_is_smaller(self, k as int);
                    }
                    items[k].write_compact(out);
                    proof {
                        lemma_join_next(parts, sep, k as int);
                    }
                    k += 1;
                }
                out.push(']');
                proof {
                    assert(parts.take(items.len() as int) =~= parts);
                }
            },
            Json::Object(entries) => {
                let ghost parts = compact_fields(entries_view(entries@));
                let ghost sep = seq![','];
                proof {
                    Json::lemma_view_object(*entries);
                }
                out.push('{');
                let ghost opened = out@;
                let mut k: usize = 0;
                while k < entries.len()
                    invariant
                        k <= entries.len(),
                        parts == compact_fields(entries_view(entries@)),
                        sep == seq![','],
                        out@ == opened + join(parts.take(k as int), sep),
                        *self == Json::Object(*entries),
                    decreases entries.len() - k,
                {
                    if k > 0 {
                        out.push(',');
                    }
                    append_quoted(out, &entries[k].0);
                    out.push(':');
                    proof {
                        lemma_entry_is_smaller(self, k as int);
                    }
                    entries[k].1.write_compact(out);
                    proof {
                        lemma_join_next(parts, sep, k as int);
                    }
                    k += 1;
                }
                out.push('}');
                proof {
                    assert(parts.take(entries.len() as int) =~= parts);
                }
            },
            _ => {
                append_word(out, self);
            },
        }
    }

    /// Appends the indented text of the tree to `out`, where the tree opens
    /// on a line `level` levels deep and `margin` is the white space of
    /// such a line.
    fn write_pretty(&self, margin: &mut Vec<char>, out: &mut String, Ghost(level): Ghost<nat>)
        requires
            old(margin)@ == indentation(level),
        ensures
            final(margin)@ == old(margin)@,
            final(out)@ == old(out)@ + pretty(self@, level),
        decreases self,
    {
        match self {
            Json::Number(literal) => {
                out.append(literal.as_str());
            },
            Json::String(text) => {
                append_quoted(out, text);
            },
            Json::Array(items) => {
                proof {
                    Json::lemma_view_array(*items);
                }
                if items.len() == 0 {
                    out.push('[');
                    out.push(']');
                    return ;
                }
                let ghost parts = pretty_lines(items_view(items@), level);
                let ghost sep = seq![',', '\n'];
                out.push('[');
                out.push('\n');
                let ghost opened = out@;
                deepen(margin, Ghost(level));
                let mut k: usize = 0;
                while k < items.len()
                    invariant
                        k <= items.len(),
                        parts == pretty_lines(items_view(items@), level),
                        sep == seq![',', '\n'],
                        out@ == opened + join(parts.take(k as int), sep),
                        margin@ == indentation(level + 1),
                        *self == Json::Array(*items),
                    decreases items.len() - k,
                {
                    if k > 0 {
                        out.push(',');
                        out.push('\n');
                    }
                    append_chars(out, margin);
                    proof {
                        lemma_item_is_smaller(self, k as int);
                    }
                    items[k].write_pretty(margin, out, Ghost(level + 1));
                    proof {
                        lemma_join_next(parts, sep, k as int);
                    }
                    k += 1;
                }
                shallow(margin, Ghost(level));
                out.push('\n');
                append_chars(out, margin);
                out.push(']');
                proof {
                    assert(parts.take(items.len() as int) =~= parts);
                }
            },
            Json::Object(entries) => {
                proof {
                    Json::lemma_view_object(*entries);
                }
                if entries.len() == 0 {
                    out.push('{');
                    out.push('}');
                    return ;
                }
                let ghost parts = pretty_fields(entries_view(entries@), level);
                let ghost sep = seq![',', '\n'];
                out.push('{');
                out.push('\n');
                let ghost opened = out@;
                deepen(margin, Ghost(level));
                let mut k: usize = 0;
                while k < entries.len()
                    invariant
                        k <= entries.len(),
                        parts == pretty_fields(entries_view(entries@), level),
                        sep == seq![',', '\n'],
                        out@ == opened + join(parts.take(k as int), sep),
                        margin@ == indentation(level + 1),
                        *self == Json::Object(*entries),
                    decreases entries.len() - k,
                {
                    if k > 0 {
                        out.push(',');
                        out.push('\n');
                    }
                    append_chars(out, margin);
                    append_quoted(out, &entries[k].0);
                    out.push(':');
                    out.push(' ');
                    proof {
                        lemma_entry_is_smaller(self, k as int);
                    }
                    entries[k].1.write_pretty(margin, out, Ghost(level + 1));
                    proof {
                        lemma_join_next(parts, sep, k as int);
                    }
                    k += 1;
                }
                shallow(margin, Ghost(level));
                out.push('\n');
                append_chars(out, margin);
                out.push('}');
                proof {
                    assert(parts.take(entries.len() as int) =~= parts);
                }
            },
            _ => {
                append_word(out, self);
            },
        }
    }

    /// The indented text of the tree, three spaces for each level, where
    /// the tree opens on a line `tabs` levels deep.
    pub fn stringify(&self, tabs: usize) -> (out: String)
        ensures
            out@ == pretty(self@, tabs as nat),
    {
        let mut margin: Vec<char> = Vec::new();
        let mut level: usize = 0;
        while level < tabs
            invariant
                level <= tabs,
                margin@ == indentation(level as nat),
            decreases tabs - level,
        {
            deepen(&mut margin, Ghost(level as nat));
            level += 1;
        }
        let mut out = String::new();
        self.write_pretty(&mut margin, &mut out, Ghost(tabs as nat));
        out
    }

    /// The compact text of the tree.
    pub fn stringify_without_formatting(&self) -> (out: String)
        ensures
            out@ == compact(self@),
    {
        let mut out = String::new();
        self.write_compact(&mut out);
        out
    }
}

} // verus!
