//! Repair of text that is meant to be JSON.
//!
//! Whatever the text holds (brackets left open, stray commas, literals cut
//! short, escapes that decode to nothing, keys given twice), it is read as
//! a value and written back as a document: nothing is rejected.

use vstd::prelude::*;

pub mod chars;
pub mod escape;
pub mod grammar;
pub mod nested;
pub mod number;
pub mod parser;
pub mod render;
pub mod roundtrip;
pub mod syntax;
pub mod text;
pub mod validity;
pub mod value;

use crate::nested::repaired;
use crate::parser::Parser;
use crate::render::{compact, pretty};
use crate::syntax::is_json_text;
use crate::validity::{lemma_repair_is_json, sound_strings};

verus! {

/// Repairs `input` and writes it out indented, three spaces for each
/// level.
pub fn fix(input: &str) -> (out: String)
    ensures
        out@ == pretty(repaired(input@), 0),
        sound_strings(repaired(input@)) ==> is_json_text(out@),
{
    proof {
        if sound_strings(repaired(input@)) {
            lemma_repair_is_json(input@);
        }
    }
    let mut parser = Parser::new(input);
    let json = parser.parse_and_fix();
    json.deserialize_all().stringify(0)
}

/// Repairs `input` and writes it out without any white space.
pub fn fix_without_formatting(input: &str) -> (out: String)
    ensures
        out@ == compact(repaired(input@)),
        sound_strings(repaired(input@)) ==> is_json_text(out@),
{
    proof {
        if sound_strings(repaired(input@)) {
            lemma_repair_is_json(input@);
        }
    }
    let mut parser = Parser::new(input);
    let json = parser.parse_and_fix();
    json.deserialize_all().stringify_without_formatting()
}

} // verus!
