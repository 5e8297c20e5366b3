//! The recovery parser: a cursor over the characters of a text, and the
//! recursive descent that reads a value from it whatever the text holds.

use vstd::prelude::*;
use crate::chars::{digit, is_digit, number_char, space};
use crate::escape::{hex4, hex_code, simple_escape, unicode_escape};
use crate::grammar;
use crate::grammar::{entries_from, items_from, next_separator, number_end, text_from, value_at};
use crate::number::{canonical_number, normalize};
use crate::text::{lemma_skip_spaces, skip_spaces, to_chars, trim, trimmed};
use crate::value::{entries_view, items_view, keep_last, put, Json, Value};

verus! {

/// A cursor over the characters of a trimmed text.
pub struct Parser {
    chars: Vec<char>,
    i: usize,
}

/// The character that an escape letter other than `u` stands for.
fn unescape(letter: char) -> (c: char)
    ensures
        c == simple_escape(letter),
{
    if letter == 'b' {
        '\u{8}'
    } else if letter == 'f' {
        '\u{c}'
    } else if letter == 'n' {
        '\n'
    } else if letter == 'r' {
        '\r'
    } else if letter == 't' {
        '\t'
    } else {
        letter
    }
}

impl Parser {
    /// The text that the cursor moves over.
    pub closed spec fn text(&self) -> Seq<char> {
        self.chars@
    }

    /// The number of characters that the cursor has passed.
    pub closed spec fn position(&self) -> int {
        self.i as int
    }

    /// The cursor stands inside its text or at its end.
    #[verifier::type_invariant]
    spec fn wf(&self) -> bool {
        self.i <= self.chars.len()
    }

    /// Whether `self` is the cursor `before` moved on to `end`.
    spec fn moved(&self, before: &Parser, end: int) -> bool {
        &&& self.chars == before.chars
        &&& self.i == end
        &&& self.i <= self.chars.len()
    }

    /// The character under the cursor.
    spec fn current(&self) -> Option<char> {
        if self.i < self.chars.len() {
            Some(self.chars[self.i as int])
        } else {
            None
        }
    }

    /// A cursor at the start of `input` without its leading and trailing
    /// white space.
    pub fn new(input: &str) -> (parser: Parser)
        ensures
            parser.text() == trim(input@),
            parser.position() == 0,
    {
        Parser { chars: trimmed(to_chars(input)), i: 0 }
    }

    /// A cursor at the start of `chars`.
    pub(crate) fn over(chars: Vec<char>) -> (parser: Parser)
        ensures
            parser.text() == chars@,
            parser.position() == 0,
    {
        Parser { chars, i: 0 }
    }

    /// The character under the cursor, if the text has not ended.
    fn peek(&self) -> (c: Option<char>)
        requires
            self.wf(),
        ensures
            c == self.current(),
    {
        if self.i < self.chars.len() {
            Some(self.chars[self.i])
        } else {
            None
        }
    }

    /// Gives the character under the cursor and moves past it, if the text
    /// has not ended.
    fn next(&mut self) -> (c: Option<char>)
        requires
            old(self).wf(),
        ensures
            c == old(self).current(),
            final(self).moved(
                old(self),
                if c is Some {
                    old(self).i + 1
                } else {
                    old(self).i as int
                },
            ),
    {
        let c = self.peek();
        if c.is_some() {
            self.i += 1;
        }
        c
    }

    /// Moves past the white space under the cursor.
    fn skip_whitespace(&mut self)
        requires
            old(self).wf(),
        ensures
            final(self).moved(old(self), skip_spaces(old(self).chars@, old(self).i as int)),
    {
        while self.i < self.chars.len() && space(self.chars[self.i])
            invariant
                self.chars == old(self).chars,
                self.i <= self.chars.len(),
                skip_spaces(self.chars@, self.i as int) == skip_spaces(
                    old(self).chars@,
                    old(self).i as int,
                ),
            decreases self.chars.len() - self.i,
        {
            self.i += 1;
        }
    }

    /// Reads the value under the cursor: the value that the rest of the
    /// text stands for.
    pub fn parse_and_fix(&mut self) -> (json: Json)
        ensures
            final(self).text() == old(self).text(),
            json@ == grammar::parse_value(old(self).text(), old(self).position()).0,
            final(self).position() == grammar::parse_value(old(self).text(), old(self).position()).1,
            json.wf(),
    {
        proof {
            use_type_invariant(&*self);
            grammar::lemma_parse_value_wf(self.chars@, self.i as int);
        }
        self.parse_value()
    }

    /// Reads the value that follows the white space under the cursor;
    /// `null` where the text ends.
    fn parse_value(&mut self) -> (json: Json)
        requires
            old(self).wf(),
        ensures
            json@ == grammar::parse_value(old(self).chars@, old(self).i as int).0,
            final(self).moved(
                old(self),
                grammar::parse_value(old(self).chars@, old(self).i as int).1,
            ),
        decreases old(self).chars.len() - old(self).i, 1nat,
    {
        proof {
            lemma_skip_spaces(self.chars@, self.i as int);
        }
        self.skip_whitespace();
        match self.peek() {
            None => Json::Null,
            Some(c) => {
                if c == 'n' || c == 'N' || c == 't' || c == 'T' || c == 'f' || c == 'F' {
                    self.parse_static()
                } else if digit(c) || c == '-' || c == '.' {
                    self.parse_number()
                } else if c == '"' {
                    self.parse_string()
                } else if c == '[' {
                    self.parse_array()
                } else if c == '{' {
                    self.parse_object()
                } else {
                    self.next();
                    Json::Null
                }
            },
        }
    }

    /// Reads the first letter of `null`, `true` or `false`, in either
    /// case, and gives the value; what follows the letter is left.
    fn parse_static(&mut self) -> (json: Json)
        requires
            old(self).wf(),
            old(self).current() matches Some(c) && (c == 'n' || c == 'N' || c == 't' || c == 'T'
                || c == 'f' || c == 'F'),
        ensures
            json@ == value_at(old(self).chars@, old(self).i as int).0,
            final(self).moved(old(self), value_at(old(self).chars@, old(self).i as int).1),
    {
        match self.next() {
            Some(c) => {
                if c == 'n' || c == 'N' {
                    Json::Null
                } else if c == 't' || c == 'T' {
                    Json::True
                } else {
                    Json::False
                }
            },
            None => Json::Null,
        }
    }

    /// Reads a number: the run of number characters under the cursor. What
    /// stands before the first decimal point is read here, the rest by
    /// [`Self::parse_float`].
    fn parse_number(&mut self) -> (json: Json)
        requires
            old(self).wf(),
            old(self).current() matches Some(c) && (is_digit(c) || c == '-' || c == '.'),
        ensures
            json@ == value_at(old(self).chars@, old(self).i as int).0,
            final(self).moved(old(self), value_at(old(self).chars@, old(self).i as int).1),
    {
        let start = self.i;
        let mut lex: Vec<char> = Vec::new();
        while self.i < self.chars.len() && number_char(self.chars[self.i]) && self.chars[self.i]
            != '.'
            invariant
                self.chars == old(self).chars,
                start <= self.i <= self.chars.len(),
                number_end(self.chars@, start as int) == number_end(self.chars@, self.i as int),
                lex@ == self.chars@.subrange(start as int, self.i as int),
            decreases self.chars.len() - self.i,
        {
            lex.push(self.chars[self.i]);
            self.i += 1;
        }
        proof {
            grammar::lemma_number_end(self.chars@, self.i as int);
            let end = number_end(self.chars@, self.i as int);
            assert(lex@ + self.chars@.subrange(self.i as int, end) =~= self.chars@.subrange(
                start as int,
                end,
            ));
        }
        if self.i < self.chars.len() && self.chars[self.i] == '.' {
            self.parse_float(lex)
        } else {
            Json::Number(normalize(&lex))
        }
    }

    /// Reads the rest of a number from its decimal point on, and gives the
    /// number whose raw text is `whole` and what was read.
    fn parse_float(&mut self, whole: Vec<char>) -> (json: Json)
        requires
            old(self).wf(),
            old(self).current() == Some('.'),
        ensures
            json@ == Value::Number(
                canonical_number(
                    whole@ + old(self).chars@.subrange(
                        old(self).i as int,
                        number_end(old(self).chars@, old(self).i as int),
                    ),
                ),
            ),
            final(self).moved(old(self), number_end(old(self).chars@, old(self).i as int)),
    {
        let start = self.i;
        let mut lex = whole;
        while self.i < self.chars.len() && number_char(self.chars[self.i])
            invariant
                self.chars == old(self).chars,
                start <= self.i <= self.chars.len(),
                number_end(self.chars@, start as int) == number_end(self.chars@, self.i as int),
                lex@ == whole@ + self.chars@.subrange(start as int, self.i as int),
            decreases self.chars.len() - self.i,
        {
            lex.push(self.chars[self.i]);
            self.i += 1;
        }
        Json::Number(normalize(&lex))
    }

    /// Reads a string literal, from its opening quote on, and gives its
    /// decoded text.
    fn parse_text(&mut self) -> (lex: String)
        requires
            old(self).wf(),
            old(self).current() == Some('"'),
        ensures
            lex@ == text_from(old(self).chars@, old(self).i + 1).0,
            final(self).moved(old(self), text_from(old(self).chars@, old(self).i + 1).1),
    {
        let ghost s = self.chars@;
        let ghost whole = text_from(s, self.i + 1);
        let mut lex = String::new();
        self.next();
        loop
            invariant_except_break
                self.chars == old(self).chars,
                self.i <= self.chars.len(),
                s == self.chars@,
                whole == text_from(s, old(self).i + 1),
                whole.0 == lex@ + text_from(s, self.i as int).0,
                whole.1 == text_from(s, self.i as int).1,
            ensures
                lex@ == whole.0,
                self.moved(old(self), whole.1),
            decreases self.chars.len() - self.i,
        {
            match self.next() {
                None => {
                    break ;
                },
                Some(c) => {
                    if c == '"' {
                        break ;
                    } else if c == '\\' {
                        match self.next() {
                            None => {},
                            Some(esc) => {
                                if esc == 'u' {
                                    match self.parse_unicode_escape() {
                                        Some(decoded) => {
                                            lex.push(decoded);
                                        },
                                        None => {},
                                    }
                                } else {
                                    lex.push(unescape(esc));
                                }
                            },
                        }
                    } else {
                        lex.push(c);
                    }
                },
            }
        }
        lex
    }

    /// Reads a string literal, from its opening quote on.
    fn parse_string(&mut self) -> (json: Json)
        requires
            old(self).wf(),
            old(self).current() == Some('"'),
        ensures
            json@ == value_at(old(self).chars@, old(self).i as int).0,
            final(self).moved(old(self), value_at(old(self).chars@, old(self).i as int).1),
    {
        Json::String(self.parse_text())
    }

    /// Reads four characters, or what is left of the text, and gives the
    /// number that four hexadecimal digits write.
    fn take_hex4(&mut self) -> (code: Option<u32>)
        requires
            old(self).wf(),
        ensures
            old(self).i + 4 <= old(self).chars.len() ==> code == hex4(
                old(self).chars@,
                old(self).i as int,
            ) && final(self).moved(old(self), old(self).i + 4),
            old(self).i + 4 > old(self).chars.len() ==> code is None && final(self).moved(
                old(self),
                old(self).chars.len() as int,
            ),
            code matches Some(n) ==> n <= 0xFFFF,
    {
        let a = self.next();
        let b = self.next();
        let c = self.next();
        let d = self.next();
        match (a, b, c, d) {
            (Some(a), Some(b), Some(c), Some(d)) => hex_code(a, b, c, d),
            _ => None,
        }
    }

    /// Decodes what follows `\u`: four hexadecimal digits that give a
    /// character, or the first half of a surrogate pair with its second
    /// half behind it in an escape of its own. Anything else is read and
    /// gives no character.
    fn parse_unicode_escape(&mut self) -> (decoded: Option<char>)
        requires
            old(self).wf(),
        ensures
            final(self).moved(old(self), unicode_escape(old(self).chars@, old(self).i as int).1),
            unicode_escape(old(self).chars@, old(self).i as int).0 == match decoded {
                Some(c) => seq![c],
                None => Seq::empty(),
            },
    {
        let code = match self.take_hex4() {
            Some(code) => code,
            None => {
                return None;
            },
        };
        match char::from_u32(code) {
            Some(c) => Some(c),
            None => {
                if 0xD800 <= code && code <= 0xDBFF {
                    let first = self.next();
                    let second = self.next();
                    match (first, second) {
                        (Some('\\'), Some('u')) => {
                            match self.take_hex4() {
                                Some(low) => {
                                    if 0xDC00 <= low && low <= 0xDFFF {
                                        char::from_u32(
                                            0x10000 + (code - 0xD800) * 0x400 + (low - 0xDC00),
                                        )
                                    } else {
                                        None
                                    }
                                },
                                None => None,
                            }
                        },
                        _ => None,
                    }
                } else {
                    None
                }
            },
        }
    }

    /// Reads an array, from its opening bracket to its closing bracket or
    /// to the end of the text.
    fn parse_array(&mut self) -> (json: Json)
        requires
            old(self).wf(),
            old(self).current() == Some('['),
        ensures
            json@ == value_at(old(self).chars@, old(self).i as int).0,
            final(self).moved(old(self), value_at(old(self).chars@, old(self).i as int).1),
        decreases old(self).chars.len() - old(self).i, 0nat,
    {
        let ghost s = self.chars@;
        let ghost whole = items_from(s, self.i + 1);
        let mut arr: Vec<Json> = Vec::new();
        self.next();
        loop
            invariant_except_break
                self.chars == old(self).chars,
                old(self).i < self.i <= self.chars.len(),
                s == self.chars@,
                whole == items_from(s, old(self).i + 1),
                whole.0 == items_view(arr@) + items_from(s, self.i as int).0,
                whole.1 == items_from(s, self.i as int).1,
            ensures
                items_view(arr@) == whole.0,
                self.moved(old(self), whole.1),
            decreases self.chars.len() - self.i,
        {
            proof {
                lemma_skip_spaces(s, self.i as int);
            }
            self.skip_whitespace();
            let ghost at = self.i as int;
            match self.peek() {
                None => {
                    break ;
                },
                Some(c) => {
                    if c == ']' {
                        self.next();
                        break ;
                    } else if c == ',' {
                        self.next();
                    } else {
                        let item = self.parse_value();
                        arr.push(item);
                        let ghost end = self.i as int;
                        while self.i < self.chars.len() && self.chars[self.i] != ']'
                            && self.chars[self.i] != ','
                            invariant
                                self.chars == old(self).chars,
                                s == self.chars@,
                                end <= self.i <= self.chars.len(),
                                next_separator(s, end) == next_separator(s, self.i as int),
                            decreases self.chars.len() - self.i,
                        {
                            self.i += 1;
                        }
                        proof {
                            grammar::lemma_value_at_advances(s, at);
                        }
                    }
                },
            }
        }
        proof {
            Json::lemma_view_array(arr);
        }
        Json::Array(arr)
    }

    /// Reads an object, from its opening brace to its closing brace or to
    /// the end of the text. A key that comes again takes its new value and
    /// moves behind the other keys.
    fn parse_object(&mut self) -> (json: Json)
        requires
            old(self).wf(),
            old(self).current() == Some('{'),
        ensures
            json@ == value_at(old(self).chars@, old(self).i as int).0,
            final(self).moved(old(self), value_at(old(self).chars@, old(self).i as int).1),
        decreases old(self).chars.len() - old(self).i, 0nat,
    {
        let ghost s = self.chars@;
        let ghost whole = entries_from(s, self.i + 1);
        let ghost read: Seq<(Seq<char>, Value)> = Seq::empty();
        let mut obj: Vec<(String, Json)> = Vec::new();
        self.next();
        loop
            invariant_except_break
                self.chars == old(self).chars,
                old(self).i < self.i <= self.chars.len(),
                s == self.chars@,
                whole == entries_from(s, old(self).i + 1),
                whole.0 == read + entries_from(s, self.i as int).0,
                whole.1 == entries_from(s, self.i as int).1,
                entries_view(obj@) == keep_last(read),
            ensures
                entries_view(obj@) == keep_last(whole.0),
                self.moved(old(self), whole.1),
            decreases self.chars.len() - self.i,
        {
            proof {
                lemma_skip_spaces(s, self.i as int);
            }
            self.skip_whitespace();
            let ghost at = self.i as int;
            match self.peek() {
                None => {
                    break ;
                },
                Some(c) => {
                    if c == '}' {
                        self.next();
                        break ;
                    } else if c == '"' {
                        proof {
                            grammar::lemma_entry_positions(s, at);
                        }
                        let key = self.parse_text();
                        self.skip_whitespace();
                        if self.i < self.chars.len() && self.chars[self.i] == ':' {
                            self.i += 1;
                        }
                        let value = self.parse_value();
                        proof {
                            let entry = (key@, value@);
                            let longer = read.push(entry);
                            assert(longer.drop_last() =~= read);
                            read = longer;
                        }
                        put(&mut obj, key, value);
                    } else {
                        self.next();
                    }
                },
            }
        }
        proof {
            Json::lemma_view_object(obj);
        }
        Json::Object(obj)
    }
}

} // verus!
