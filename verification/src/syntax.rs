//! What a JSON text is: the grammar of JSON, as the trees that derive a
//! text.
//!
//! A text is a JSON text if some valid tree writes it. A tree holds, beside
//! the values, the white space that the grammar allows around them.

use vstd::prelude::*;
use crate::escape::hex4;
use crate::number::is_json_number;
use crate::render::{false_word, join, null_word, quoted, true_word};

verus! {

/// A value as it is laid out in a text.
pub enum Syntax {
    Null,
    True,
    False,
    /// A number, as it is written.
    Number(Seq<char>),
    /// A string, as it is written between its quotes.
    Text(Seq<char>),
    /// An array: its elements, and the white space between the brackets
    /// where it has none.
    Array(Seq<Element>, Seq<char>),
    /// An object: its members, and the white space between the braces where
    /// it has none.
    Object(Seq<Member>, Seq<char>),
}

/// A value with the white space before and after it.
pub struct Element {
    pub before: Seq<char>,
    pub value: Syntax,
    pub after: Seq<char>,
}

/// A member of an object: the key as it is written between its quotes, the
/// value, and the white space around the two.
pub struct Member {
    pub before: Seq<char>,
    pub key: Seq<char>,
    pub between: Seq<char>,
    pub element: Element,
}

/// Whether `c` is white space as JSON knows it: a space, a tab, a line
/// feed or a carriage return.
pub open spec fn is_json_space(c: char) -> bool {
    c == ' ' || c == '\t' || c == '\n' || c == '\r'
}

/// Whether `s` holds nothing but white space.
pub open spec fn is_blank(s: Seq<char>) -> bool {
    forall|k: int| 0 <= k < s.len() ==> is_json_space(#[trigger] s[k])
}

/// Whether `c` can follow a backslash by itself.
pub open spec fn is_escape_letter(c: char) -> bool {
    c == '"' || c == '\\' || c == '/' || c == 'b' || c == 'f' || c == 'n' || c == 'r' || c == 't'
}

/// Whether `c` can stand in a string as it is: no quote, no backslash, no
/// control character.
pub open spec fn is_unescaped(c: char) -> bool {
    c != '"' && c != '\\' && c as u32 >= 0x20
}

/// Whether `body` can stand between the quotes of a string: characters that
/// can stand as they are, and escapes, each a backslash with one of its
/// letters or with `u` and four hexadecimal digits.
pub open spec fn is_string_body(body: Seq<char>) -> bool
    decreases body.len(),
{
    if body.len() == 0 {
        true
    } else if body[0] != '\\' {
        is_unescaped(body[0]) && is_string_body(body.skip(1))
    } else if body.len() >= 2 && is_escape_letter(body[1]) {
        is_string_body(body.skip(2))
    } else {
        body.len() >= 6 && body[1] == 'u' && hex4(body, 2) is Some && is_string_body(body.skip(6))
    }
}

impl Syntax {
    /// The text that the tree writes.
    pub open spec fn text(self) -> Seq<char>
        decreases self, 1nat,
    {
        match self {
            Syntax::Null => null_word(),
            Syntax::True => true_word(),
            Syntax::False => false_word(),
            Syntax::Number(literal) => literal,
            Syntax::Text(body) => quoted(body),
            Syntax::Array(elements, blank) => seq!['['] + (if elements.len() == 0 {
                blank
            } else {
                join(element_texts(elements), seq![','])
            }) + seq![']'],
            Syntax::Object(members, blank) => seq!['{'] + (if members.len() == 0 {
                blank
            } else {
                join(member_texts(members), seq![','])
            }) + seq!['}'],
        }
    }

    /// Whether the tree follows the grammar.
    pub open spec fn valid(self) -> bool
        decreases self,
    {
        match self {
            Syntax::Number(literal) => is_json_number(literal),
            Syntax::Text(body) => is_string_body(body),
            Syntax::Array(elements, blank) => {
                &&& is_blank(blank)
                &&& forall|k: int|
                    0 <= k < elements.len() ==> {
                        &&& is_blank((#[trigger] elements[k]).before)
                        &&& is_blank(elements[k].after)
                        &&& elements[k].value.valid()
                    }
            },
            Syntax::Object(members, blank) => {
                &&& is_blank(blank)
                &&& forall|k: int|
                    0 <= k < members.len() ==> {
                        &&& is_blank((#[trigger] members[k]).before)
                        &&& is_string_body(members[k].key)
                        &&& is_blank(members[k].between)
                        &&& is_blank(members[k].element.before)
                        &&& is_blank(members[k].element.after)
                        &&& members[k].element.value.valid()
                    }
            },
            _ => true,
        }
    }
}

/// The text of a value with the white space around it.
pub open spec fn element_text(element: Element) -> Seq<char>
    decreases element, 2nat,
{
    element.before + element.value.text() + element.after
}

/// The text of a member: the key between quotes, a colon, the value, with
/// the white space around them.
pub open spec fn member_text(member: Member) -> Seq<char>
    decreases member, 3nat,
{
    member.before + quoted(member.key) + member.between + seq![':'] + element_text(
        member.element,
    )
}

/// The texts of `elements`, one for each.
pub open spec fn element_texts(elements: Seq<Element>) -> Seq<Seq<char>>
    decreases elements, 0nat,
{
    Seq::new(
        elements.len(),
        |k: int|
            if 0 <= k < elements.len() {
                element_text(elements[k])
            } else {
                Seq::empty()
            },
    )
}

/// The texts of `members`, one for each.
pub open spec fn member_texts(members: Seq<Member>) -> Seq<Seq<char>>
    decreases members, 0nat,
{
    Seq::new(
        members.len(),
        |k: int|
            if 0 <= k < members.len() {
                member_text(members[k])
            } else {
                Seq::empty()
            },
    )
}

/// Whether `text` is a JSON text: a value that follows the grammar, with
/// white space or none before and after it.
pub open spec fn is_json_text(text: Seq<char>) -> bool {
    exists|element: Element|
        {
            &&& is_blank(element.before)
            &&& is_blank(element.after)
            &&& element.value.valid()
            &&& text == element_text(element)
        }
}

} // verus!
