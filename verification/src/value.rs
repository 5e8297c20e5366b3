//! The value tree: its mathematical model and its executable form.
//!
//! An object is a sequence of entries in the order in which they are
//! written out, and no key occurs in it twice.

use vstd::prelude::*;

verus! {

/// The content of a document, as contracts speak of it.
pub enum Value {
    Null,
    True,
    False,
    /// A number, as its canonical literal.
    Number(Seq<char>),
    /// A string, with every escape decoded.
    Text(Seq<char>),
    Array(Seq<Value>),
    /// The entries of an object, in the order in which they are written out.
    Object(Seq<(Seq<char>, Value)>),
}

/// A value tree as the parser builds it.
pub enum Json {
    Null,
    True,
    False,
    /// A number, as its canonical literal.
    Number(String),
    /// A string, with every escape decoded.
    String(String),
    Array(Vec<Json>),
    /// The entries of an object, in the order in which they are written out.
    Object(Vec<(String, Json)>),
}

/// The position of the first entry at or after `from` whose key is `key`,
/// or the number of entries.
pub open spec fn key_position(entries: Seq<(Seq<char>, Value)>, key: Seq<char>, from: int) -> int
    decreases entries.len() - from,
{
    if 0 <= from < entries.len() && entries[from].0 != key {
        key_position(entries, key, from + 1)
    } else {
        from
    }
}

/// The value that `entries` holds under `key`, if any.
pub open spec fn lookup(entries: Seq<(Seq<char>, Value)>, key: Seq<char>) -> Option<Value> {
    let at = key_position(entries, key, 0);
    if at < entries.len() {
        Some(entries[at].1)
    } else {
        None
    }
}

/// `entries` without the entry under `key`.
pub open spec fn without_key(entries: Seq<(Seq<char>, Value)>, key: Seq<char>) -> Seq<
    (Seq<char>, Value),
> {
    let at = key_position(entries, key, 0);
    if at < entries.len() {
        entries.remove(at)
    } else {
        entries
    }
}

/// `entries` after `key` is given `value`: an entry that was there under
/// `key` leaves its place, and the new one comes last.
pub open spec fn upsert(entries: Seq<(Seq<char>, Value)>, key: Seq<char>, value: Value) -> Seq<
    (Seq<char>, Value),
> {
    without_key(entries, key).push((key, value))
}

/// The entries of the object that is given the entries `raw` one after the
/// other.
pub open spec fn keep_last(raw: Seq<(Seq<char>, Value)>) -> Seq<(Seq<char>, Value)>
    decreases raw.len(),
{
    if raw.len() == 0 {
        Seq::empty()
    } else {
        upsert(keep_last(raw.drop_last()), raw.last().0, raw.last().1)
    }
}

/// Whether no key occurs twice in `entries`.
pub open spec fn distinct_keys(entries: Seq<(Seq<char>, Value)>) -> bool {
    forall|i: int, j: int| 0 <= i < j < entries.len() ==> entries[i].0 != entries[j].0
}

impl Value {
    /// Whether no object of the tree holds a key twice.
    pub open spec fn wf(self) -> bool
        decreases self,
    {
        match self {
            Value::Array(items) => forall|k: int| 0 <= k < items.len() ==> (#[trigger] items[k]).wf(),
            Value::Object(entries) => {
                &&& distinct_keys(entries)
                &&& forall|k: int| 0 <= k < entries.len() ==> (#[trigger] entries[k]).1.wf()
            },
            _ => true,
        }
    }
}

/// The content of the tree `json`.
pub open spec fn value_of(json: Json) -> Value
    decreases json,
{
    match json {
        Json::Null => Value::Null,
        Json::True => Value::True,
        Json::False => Value::False,
        Json::Number(n) => Value::Number(n@),
        Json::String(t) => Value::Text(t@),
        Json::Array(items) => Value::Array(
            Seq::new(
                items.len() as nat,
                |k: int|
                    if 0 <= k < items.len() {
                        value_of(items[k])
                    } else {
                        Value::Null
                    },
            ),
        ),
        Json::Object(entries) => Value::Object(
            Seq::new(
                entries.len() as nat,
                |k: int|
                    if 0 <= k < entries.len() {
                        (entries[k].0@, value_of(entries[k].1))
                    } else {
                        (Seq::empty(), Value::Null)
                    },
            ),
        ),
    }
}

impl View for Json {
    type V = Value;

    open spec fn view(&self) -> Value {
        value_of(*self)
    }
}

/// The values that `items` stand for.
pub open spec fn items_view(items: Seq<Json>) -> Seq<Value> {
    Seq::new(items.len(), |k: int| items[k]@)
}

/// The entries that `entries` stand for.
pub open spec fn entries_view(entries: Seq<(String, Json)>) -> Seq<(Seq<char>, Value)> {
    Seq::new(entries.len(), |k: int| (entries[k].0@, entries[k].1@))
}

impl Json {
    /// Whether no object of the tree holds a key twice.
    pub open spec fn wf(&self) -> bool {
        self@.wf()
    }

    /// An array stands for the values of its items.
    pub proof fn lemma_view_array(items: Vec<Json>)
        ensures
            Json::Array(items)@ == Value::Array(items_view(items@)),
    {
        assert(Json::Array(items)@->Array_0 =~= items_view(items@));
    }

    /// An object stands for its entries.
    pub proof fn lemma_view_object(entries: Vec<(String, Json)>)
        ensures
            Json::Object(entries)@ == Value::Object(entries_view(entries@)),
    {
        assert(Json::Object(entries)@->Object_0 =~= entries_view(entries@));
    }
}

/// `key_position` stops among the entries or at their end, on an entry
/// under `key`, and has passed none.
pub proof fn lemma_key_position(entries: Seq<(Seq<char>, Value)>, key: Seq<char>, from: int)
    requires
        0 <= from <= entries.len(),
    ensures
        from <= key_position(entries, key, from) <= entries.len(),
        key_position(entries, key, from) < entries.len() ==> entries[key_position(
            entries,
            key,
            from,
        )].0 == key,
        forall|k: int|
            from <= k < key_position(entries, key, from) ==> (#[trigger] entries[k]).0 != key,
    decreases entries.len() - from,
{
    if from < entries.len() && entries[from].0 != key {
        lemma_key_position(entries, key, from + 1);
    }
}

/// Gives `key` the value `value` in `entries`.
pub fn put(entries: &mut Vec<(String, Json)>, key: String, value: Json)
    ensures
        entries_view(final(entries)@) == upsert(entries_view(old(entries)@), key@, value@),
{
    let ghost before = entries_view(entries@);
    let mut at: usize = 0;
    while at < entries.len() && !(entries[at].0 == key)
        invariant
            at <= entries.len(),
            entries@ == old(entries)@,
            before == entries_view(entries@),
            key_position(before, key@, 0) == key_position(before, key@, at as int),
        decreases entries.len() - at,
    {
        at += 1;
    }
    if at < entries.len() {
        entries.remove(at);
    }
    entries.push((key, value));
}

/// Whether `entries` holds an entry under `key`.
pub open spec fn has_key(entries: Seq<(Seq<char>, Value)>, key: Seq<char>) -> bool {
    exists|k: int| 0 <= k < entries.len() && (#[trigger] entries[k]).0 == key
}

/// The value of the last of the entries `raw` that stands under `key`, if
/// there is one.
pub open spec fn last_value(raw: Seq<(Seq<char>, Value)>, key: Seq<char>) -> Option<Value>
    decreases raw.len(),
{
    if raw.len() == 0 {
        None
    } else if raw.last().0 == key {
        Some(raw.last().1)
    } else {
        last_value(raw.drop_last(), key)
    }
}

/// Where no key occurs twice, `lookup` finds each entry.
pub proof fn lemma_lookup_finds(entries: Seq<(Seq<char>, Value)>, k: int)
    requires
        distinct_keys(entries),
        0 <= k < entries.len(),
    ensures
        lookup(entries, entries[k].0) == Some(entries[k].1),
{
    lemma_key_position(entries, entries[k].0, 0);
}

/// Taking a key out of entries without a double key leaves no entry under
/// that key and every other entry in its order.
pub proof fn lemma_without_key(entries: Seq<(Seq<char>, Value)>, key: Seq<char>)
    requires
        distinct_keys(entries),
    ensures
        distinct_keys(without_key(entries, key)),
        !has_key(without_key(entries, key), key),
        forall|other: Seq<char>|
            other != key ==> lookup(without_key(entries, key), other) == lookup(entries, other),
        forall|e: (Seq<char>, Value)| #[trigger]
            without_key(entries, key).contains(e) ==> entries.contains(e),
{
    lemma_key_position(entries, key, 0);
    let at = key_position(entries, key, 0);
    let rest = without_key(entries, key);
    if at < entries.len() {
        assert forall|other: Seq<char>| other != key implies lookup(rest, other) == lookup(
            entries,
            other,
        ) by {
            lemma_key_position(entries, other, 0);
            lemma_key_position(rest, other, 0);
            let i = key_position(entries, other, 0);
            if i < entries.len() {
                let moved = if i < at {
                    i
                } else {
                    i - 1
                };
                lemma_lookup_finds(rest, moved);
            }
        }
    }
}

/// Giving a key a value keeps the keys distinct, puts the value under the
/// key and leaves every other key with its value.
pub proof fn lemma_upsert(entries: Seq<(Seq<char>, Value)>, key: Seq<char>, value: Value)
    requires
        distinct_keys(entries),
    ensures
        distinct_keys(upsert(entries, key, value)),
        lookup(upsert(entries, key, value), key) == Some(value),
        forall|other: Seq<char>|
            other != key ==> lookup(upsert(entries, key, value), other) == lookup(entries, other),
        forall|e: (Seq<char>, Value)| #[trigger]
            upsert(entries, key, value).contains(e) ==> e == (key, value) || entries.contains(e),
{
    lemma_without_key(entries, key);
    let rest = without_key(entries, key);
    let next = upsert(entries, key, value);
    lemma_lookup_finds(next, rest.len() as int);
    assert forall|other: Seq<char>| other != key implies lookup(next, other) == lookup(
        entries,
        other,
    ) by {
        lemma_key_position(rest, other, 0);
        lemma_key_position(next, other, 0);
        let i = key_position(rest, other, 0);
        if i < rest.len() {
            lemma_lookup_finds(next, i);
        }
    }
    assert forall|e: (Seq<char>, Value)| #[trigger] next.contains(e) implies e == (key, value)
        || entries.contains(e) by {
        let j = choose|j: int| 0 <= j < next.len() && next[j] == e;
        if j < rest.len() {
            assert(rest.contains(e));
        }
    }
}

/// An object holds no key twice; under each key it holds the value that
/// came last under that key; and each of its entries is one that it was
/// given.
pub proof fn lemma_keep_last(raw: Seq<(Seq<char>, Value)>)
    ensures
        distinct_keys(keep_last(raw)),
        forall|key: Seq<char>| lookup(keep_last(raw), key) == last_value(raw, key),
        forall|e: (Seq<char>, Value)| #[trigger] keep_last(raw).contains(e) ==> raw.contains(e),
    decreases raw.len(),
{
    if raw.len() > 0 {
        let before = keep_last(raw.drop_last());
        lemma_keep_last(raw.drop_last());
        lemma_upsert(before, raw.last().0, raw.last().1);
        assert forall|key: Seq<char>| lookup(keep_last(raw), key) == last_value(raw, key) by {
            if key != raw.last().0 {
                assert(lookup(before, key) == last_value(raw.drop_last(), key));
            }
        }
    }
}

/// The entries of `raw` that no later entry overrides, in their order.
pub open spec fn last_entries(raw: Seq<(Seq<char>, Value)>) -> Seq<(Seq<char>, Value)>
    decreases raw.len(),
{
    if raw.len() == 0 {
        Seq::empty()
    } else if has_key(raw.drop_first(), raw[0].0) {
        last_entries(raw.drop_first())
    } else {
        seq![raw[0]] + last_entries(raw.drop_first())
    }
}

/// The first entry under `key` at or after `from` stands at `at`, where
/// none stands between the two and one stands at `at` or the entries end
/// there.
pub proof fn lemma_key_position_is(
    entries: Seq<(Seq<char>, Value)>,
    key: Seq<char>,
    from: int,
    at: int,
)
    requires
        0 <= from <= at <= entries.len(),
        forall|k: int| from <= k < at ==> (#[trigger] entries[k]).0 != key,
        at < entries.len() ==> entries[at].0 == key,
    ensures
        key_position(entries, key, from) == at,
    decreases at - from,
{
    if from < at {
        lemma_key_position_is(entries, key, from + 1, at);
    }
}

/// Taking out a key that is not there changes nothing.
pub proof fn lemma_without_absent(entries: Seq<(Seq<char>, Value)>, key: Seq<char>)
    requires
        !has_key(entries, key),
    ensures
        without_key(entries, key) == entries,
{
    lemma_key_position(entries, key, 0);
}

/// Taking a key out of entries behind a first one: the first one leaves if
/// it stands under the key, and stays before the others if not.
pub proof fn lemma_without_key_behind(
    first: (Seq<char>, Value),
    others: Seq<(Seq<char>, Value)>,
    key: Seq<char>,
)
    ensures
        without_key(seq![first] + others, key) == if first.0 == key {
            others
        } else {
            seq![first] + without_key(others, key)
        },
{
    let all = seq![first] + others;
    if first.0 != key {
        lemma_key_position(others, key, 0);
        let at = key_position(others, key, 0);
        lemma_key_position_is(all, key, 0, at + 1);
    }
}

/// The entries that no later entry overrides stand under the keys of all
/// the entries.
pub proof fn lemma_last_entries_keys(raw: Seq<(Seq<char>, Value)>, key: Seq<char>)
    ensures
        has_key(last_entries(raw), key) <==> has_key(raw, key),
    decreases raw.len(),
{
    if raw.len() > 0 {
        let rest = raw.drop_first();
        let kept = last_entries(rest);
        lemma_last_entries_keys(rest, key);
        if has_key(raw, key) {
            let k = choose|k: int| 0 <= k < raw.len() && (#[trigger] raw[k]).0 == key;
            if k > 0 {
                assert(rest[k - 1].0 == key);
            }
            if has_key(rest, key) {
                let j = choose|j: int| 0 <= j < kept.len() && (#[trigger] kept[j]).0 == key;
                if !has_key(rest, raw[0].0) {
                    assert((seq![raw[0]] + kept)[j + 1].0 == key);
                }
            } else {
                assert((seq![raw[0]] + kept)[0].0 == key);
            }
        }
    }
}

/// One entry more overrides the entry under its key and comes last.
pub proof fn lemma_last_entries_push(raw: Seq<(Seq<char>, Value)>, entry: (Seq<char>, Value))
    ensures
        last_entries(raw.push(entry)) == without_key(last_entries(raw), entry.0).push(entry),
    decreases raw.len(),
{
    let longer = raw.push(entry);
    if raw.len() == 0 {
        assert(last_entries(longer.drop_first()) =~= Seq::<(Seq<char>, Value)>::empty());
    } else {
        let first = raw[0];
        let rest = raw.drop_first();
        let kept = last_entries(rest);
        assert(longer.drop_first() =~= rest.push(entry));
        lemma_last_entries_push(rest, entry);
        lemma_last_entries_keys(rest, entry.0);
        assert(has_key(rest.push(entry), first.0) <==> has_key(rest, first.0) || first.0
            == entry.0) by {
            let more = rest.push(entry);
            if has_key(rest, first.0) {
                let k = choose|k: int| 0 <= k < rest.len() && (#[trigger] rest[k]).0 == first.0;
                assert(more[k].0 == first.0);
            }
            if first.0 == entry.0 {
                assert(more[rest.len() as int].0 == first.0);
            }
        }
        if !has_key(rest, first.0) {
            if first.0 == entry.0 {
                lemma_without_absent(kept, entry.0);
            } else {
                lemma_without_key_behind(first, kept, entry.0);
            }
        }
    }
}

/// The entries of an object are the entries it was given that no later one
/// overrides, in the order in which they were given: each key stands where
/// it was given last.
pub proof fn lemma_keep_last_is_last_entries(raw: Seq<(Seq<char>, Value)>)
    ensures
        keep_last(raw) == last_entries(raw),
    decreases raw.len(),
{
    if raw.len() > 0 {
        lemma_keep_last_is_last_entries(raw.drop_last());
        lemma_last_entries_push(raw.drop_last(), raw.last());
        assert(raw.drop_last().push(raw.last()) =~= raw);
    }
}

} // verus!
