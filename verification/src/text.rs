//! Text as a sequence of characters: conversion from and to strings, and
//! trimming of white space.

use vstd::prelude::*;
use crate::chars::{is_space, space};

verus! {

/// `String::push` appends one character to the end of the string and leaves
/// what was there before unchanged.
pub assume_specification[ std::string::String::push ](s: &mut std::string::String, c: char)
    ensures
        final(s)@ == old(s)@.push(c),
;

/// The first position at or after `from` that holds no white space, or the
/// length of `s`.
pub open spec fn skip_spaces(s: Seq<char>, from: int) -> int
    decreases s.len() - from,
{
    if 0 <= from < s.len() && is_space(s[from]) {
        skip_spaces(s, from + 1)
    } else {
        from
    }
}

/// The end of `s.take(upto)` once its trailing white space is cut off.
pub open spec fn trim_end(s: Seq<char>, upto: int) -> int
    decreases upto,
{
    if 0 < upto <= s.len() && is_space(s[upto - 1]) {
        trim_end(s, upto - 1)
    } else {
        upto
    }
}

/// `s` without its leading and trailing white space.
pub open spec fn trim(s: Seq<char>) -> Seq<char> {
    let start = skip_spaces(s, 0);
    let end = trim_end(s, s.len() as int);
    if start < end {
        s.subrange(start, end)
    } else {
        Seq::empty()
    }
}

/// Whether trimmed `s` opens with a brace or a bracket.
pub open spec fn looks_nested(s: Seq<char>) -> bool {
    let core = trim(s);
    core.len() > 0 && (core[0] == '{' || core[0] == '[')
}

/// `skip_spaces` stops inside the text, at or after where it started, on a
/// character that is no white space, and has passed only white space.
pub proof fn lemma_skip_spaces(s: Seq<char>, from: int)
    requires
        0 <= from <= s.len(),
    ensures
        from <= skip_spaces(s, from) <= s.len(),
        skip_spaces(s, from) < s.len() ==> !is_space(s[skip_spaces(s, from)]),
        forall|k: int| from <= k < skip_spaces(s, from) ==> is_space(#[trigger] s[k]),
    decreases s.len() - from,
{
    if from < s.len() && is_space(s[from]) {
        lemma_skip_spaces(s, from + 1);
    }
}

/// `trim_end` stops at or before where it started, after a character that
/// is no white space, and has passed only white space.
pub proof fn lemma_trim_end(s: Seq<char>, upto: int)
    requires
        0 <= upto <= s.len(),
    ensures
        0 <= trim_end(s, upto) <= upto,
        trim_end(s, upto) > 0 ==> !is_space(s[trim_end(s, upto) - 1]),
        forall|k: int| trim_end(s, upto) <= k < upto ==> is_space(#[trigger] s[k]),
    decreases upto,
{
    if 0 < upto && is_space(s[upto - 1]) {
        lemma_trim_end(s, upto - 1);
    }
}

/// Trimmed text neither starts nor ends with white space.
pub proof fn lemma_trim_is_tight(s: Seq<char>)
    ensures
        trim(s).len() > 0 ==> !is_space(trim(s).first()) && !is_space(trim(s).last()),
        trim(s).len() <= s.len(),
{
    lemma_skip_spaces(s, 0);
    lemma_trim_end(s, s.len() as int);
}

/// Text that neither starts nor ends with white space is its own trimming.
pub proof fn lemma_trim_of_tight(s: Seq<char>)
    requires
        s.len() > 0 ==> !is_space(s.first()) && !is_space(s.last()),
    ensures
        trim(s) == s,
{
}

/// The characters of `s`, in order.
pub fn to_chars(s: &str) -> (v: Vec<char>)
    ensures
        v@ == s@,
{
    let mut v: Vec<char> = Vec::new();
    for c in it: s.chars()
        invariant
            v@ == it.seq().take(it.index()),
            it.seq() == s@,
    {
        v.push(c);
    }
    v
}

/// The string that holds the characters `v[from..upto]`.
pub fn collect(v: &Vec<char>, from: usize, upto: usize) -> (s: String)
    requires
        from <= upto <= v.len(),
    ensures
        s@ == v@.subrange(from as int, upto as int),
{
    let mut s = String::new();
    let mut k: usize = from;
    while k < upto
        invariant
            from <= k <= upto <= v.len(),
            s@ == v@.subrange(from as int, k as int),
        decreases upto - k,
    {
        s.push(v[k]);
        k += 1;
    }
    s
}

/// The characters of `v` without leading and trailing white space.
pub fn trimmed(v: Vec<char>) -> (t: Vec<char>)
    ensures
        t@ == trim(v@),
{
    let n = v.len();
    let mut start: usize = 0;
    while start < n && space(v[start])
        invariant
            start <= n == v.len(),
            skip_spaces(v@, 0) == skip_spaces(v@, start as int),
        decreases n - start,
    {
        start += 1;
    }
    let mut end: usize = n;
    while end > 0 && space(v[end - 1])
        invariant
            end <= n == v.len(),
            trim_end(v@, n as int) == trim_end(v@, end as int),
        decreases end,
    {
        end -= 1;
    }
    let mut t: Vec<char> = Vec::new();
    let mut k: usize = start;
    while k < end
        invariant
            start <= k,
            end <= v.len(),
            start < end ==> k <= end,
            start < end ==> t@ == v@.subrange(start as int, k as int),
            start >= end ==> t@ == Seq::<char>::empty(),
        decreases end - k,
    {
        t.push(v[k]);
        k += 1;
    }
    t
}

} // verus!
