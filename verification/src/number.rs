//! Canonical number literals.
//!
//! A number is kept as text, never as a machine number. Its raw text is
//! read as five parts (a sign, the digits before the decimal point, the
//! digits after it, the sign of the exponent and the digits of the
//! exponent) and written back in the one form that JSON accepts. Every
//! other character of the raw text is dropped.

use vstd::prelude::*;
use crate::chars::{digit, is_digit, is_exponent_mark, is_sign};
use crate::text::{collect, to_chars};

verus! {

/// The parts of a number's raw text.
pub struct NumberParts {
    /// Whether the text opens with a minus sign.
    pub negative: bool,
    /// The digits before the decimal point.
    pub whole: Seq<char>,
    /// Whether there is a decimal point before the exponent.
    pub point: bool,
    /// The digits between the decimal point and the exponent.
    pub fraction: Seq<char>,
    /// The sign that directly follows the exponent mark: empty or one sign.
    pub exponent_sign: Seq<char>,
    /// The digits after the exponent mark.
    pub exponent: Seq<char>,
}

/// The decimal digits among the characters of `s`, in order.
pub open spec fn digits_of(s: Seq<char>) -> Seq<char>
    decreases s.len(),
{
    if s.len() == 0 {
        Seq::empty()
    } else if is_digit(s.last()) {
        digits_of(s.drop_last()).push(s.last())
    } else {
        digits_of(s.drop_last())
    }
}

/// The position of the first exponent mark at or after `from`, or the length
/// of `s`.
pub open spec fn find_mark(s: Seq<char>, from: int) -> int
    decreases s.len() - from,
{
    if 0 <= from < s.len() && !is_exponent_mark(s[from]) {
        find_mark(s, from + 1)
    } else {
        from
    }
}

/// The position of the first decimal point at or after `from`, or the length
/// of `s`.
pub open spec fn find_point(s: Seq<char>, from: int) -> int
    decreases s.len() - from,
{
    if 0 <= from < s.len() && s[from] != '.' {
        find_point(s, from + 1)
    } else {
        from
    }
}

/// The position of the first character other than `0` at or after `from`,
/// or the length of `s`.
pub open spec fn find_nonzero(s: Seq<char>, from: int) -> int
    decreases s.len() - from,
{
    if 0 <= from < s.len() && s[from] == '0' {
        find_nonzero(s, from + 1)
    } else {
        from
    }
}

/// `digits` without its leading zeros.
pub open spec fn strip_zeros(digits: Seq<char>) -> Seq<char> {
    digits.skip(find_nonzero(digits, 0))
}

/// `digits`, or a single zero where there are none.
pub open spec fn or_zero(digits: Seq<char>) -> Seq<char> {
    if digits.len() == 0 {
        seq!['0']
    } else {
        digits
    }
}

/// The text before the first exponent mark.
pub open spec fn mantissa_of(raw: Seq<char>) -> Seq<char> {
    raw.take(find_mark(raw, 0))
}

/// The text after the first exponent mark; empty where there is no mark.
pub open spec fn exponent_of(raw: Seq<char>) -> Seq<char> {
    let mark = find_mark(raw, 0);
    if mark < raw.len() {
        raw.skip(mark + 1)
    } else {
        Seq::empty()
    }
}

/// The parts of the raw text `raw`.
pub open spec fn parts_of(raw: Seq<char>) -> NumberParts {
    let mantissa = mantissa_of(raw);
    let point = find_point(mantissa, 0);
    let tail = exponent_of(raw);
    NumberParts {
        negative: raw.len() > 0 && raw[0] == '-',
        whole: digits_of(mantissa.take(point)),
        point: point < mantissa.len(),
        fraction: digits_of(mantissa.skip(point)),
        exponent_sign: if tail.len() > 0 && is_sign(tail[0]) {
            seq![tail[0]]
        } else {
            Seq::empty()
        },
        exponent: digits_of(tail),
    }
}

/// The literal that stands for the parts `p`: the sign; the whole digits
/// without leading zeros, or `0`; the fraction where there is a decimal
/// point, `0` where it has no digits; the exponent where it has digits.
pub open spec fn literal_of(p: NumberParts) -> Seq<char> {
    let sign = if p.negative {
        seq!['-']
    } else {
        Seq::empty()
    };
    let fraction = if p.point {
        seq!['.'] + or_zero(p.fraction)
    } else {
        Seq::empty()
    };
    let exponent = if p.exponent.len() > 0 {
        seq!['e'] + p.exponent_sign + p.exponent
    } else {
        Seq::empty()
    };
    sign + or_zero(strip_zeros(p.whole)) + fraction + exponent
}

/// The canonical literal of the raw number text `raw`.
pub open spec fn canonical_number(raw: Seq<char>) -> Seq<char> {
    literal_of(parts_of(raw))
}

/// `find_point` stops at or after where it started and inside the text, on
/// a decimal point, and has passed none.
proof fn lemma_find_point(s: Seq<char>, from: int)
    requires
        0 <= from <= s.len(),
    ensures
        from <= find_point(s, from) <= s.len(),
        find_point(s, from) < s.len() ==> s[find_point(s, from)] == '.',
        forall|k: int| from <= k < find_point(s, from) ==> #[trigger] s[k] != '.',
    decreases s.len() - from,
{
    if from < s.len() && s[from] != '.' {
        lemma_find_point(s, from + 1);
    }
}

/// `find_nonzero` stops at or after where it started and inside the text,
/// on a character other than `0`, and has passed only zeros.
proof fn lemma_find_nonzero(s: Seq<char>, from: int)
    requires
        0 <= from <= s.len(),
    ensures
        from <= find_nonzero(s, from) <= s.len(),
        find_nonzero(s, from) < s.len() ==> s[find_nonzero(s, from)] != '0',
        forall|k: int| from <= k < find_nonzero(s, from) ==> #[trigger] s[k] == '0',
    decreases s.len() - from,
{
    if from < s.len() && s[from] == '0' {
        lemma_find_nonzero(s, from + 1);
    }
}

/// Appends the digits among `x[from..upto]` to `out`.
fn push_digits(out: &mut Vec<char>, x: &Vec<char>, from: usize, upto: usize)
    requires
        from <= upto <= x.len(),
    ensures
        final(out)@ == old(out)@ + digits_of(x@.subrange(from as int, upto as int)),
{
    let mut k: usize = from;
    while k < upto
        invariant
            from <= k <= upto <= x.len(),
            out@ == old(out)@ + digits_of(x@.subrange(from as int, k as int)),
        decreases upto - k,
    {
        let c = x[k];
        proof {
            let next = x@.subrange(from as int, k + 1);
            assert(next.drop_last() =~= x@.subrange(from as int, k as int));
        }
        if digit(c) {
            out.push(c);
        }
        k += 1;
    }
}

/// Appends `x[from..]` to `out`.
fn push_rest(out: &mut Vec<char>, x: &Vec<char>, from: usize)
    requires
        from <= x.len(),
    ensures
        final(out)@ == old(out)@ + x@.skip(from as int),
{
    let mut k: usize = from;
    while k < x.len()
        invariant
            from <= k <= x.len(),
            out@ == old(out)@ + x@.subrange(from as int, k as int),
        decreases x.len() - k,
    {
        out.push(x[k]);
        k += 1;
    }
}

/// The position of the first exponent mark in `x`, or its length.
fn mark_position(x: &Vec<char>) -> (mark: usize)
    ensures
        mark == find_mark(x@, 0),
        mark <= x.len(),
{
    let mut mark: usize = 0;
    while mark < x.len() && x[mark] != 'e' && x[mark] != 'E'
        invariant
            mark <= x.len(),
            find_mark(x@, 0) == find_mark(x@, mark as int),
        decreases x.len() - mark,
    {
        mark += 1;
    }
    mark
}

/// The position of the first decimal point in `x[..mark]`, or `mark`.
fn point_position(x: &Vec<char>, mark: usize) -> (point: usize)
    requires
        mark <= x.len(),
    ensures
        point == find_point(x@.take(mark as int), 0),
        point <= mark,
{
    let ghost mantissa = x@.take(mark as int);
    let mut point: usize = 0;
    while point < mark && x[point] != '.'
        invariant
            point <= mark <= x.len(),
            mantissa == x@.take(mark as int),
            find_point(mantissa, 0) == find_point(mantissa, point as int),
        decreases mark - point,
    {
        point += 1;
    }
    point
}

/// Appends the whole part of the literal: the digits among `x[..point]`
/// without leading zeros, or `0`.
fn push_whole(out: &mut Vec<char>, x: &Vec<char>, point: usize)
    requires
        point <= x.len(),
    ensures
        final(out)@ == old(out)@ + or_zero(strip_zeros(digits_of(x@.take(point as int)))),
{
    let mut whole: Vec<char> = Vec::new();
    push_digits(&mut whole, x, 0, point);
    let mut zeros: usize = 0;
    while zeros < whole.len() && whole[zeros] == '0'
        invariant
            zeros <= whole.len(),
            find_nonzero(whole@, 0) == find_nonzero(whole@, zeros as int),
        decreases whole.len() - zeros,
    {
        zeros += 1;
    }
    if zeros == whole.len() {
        out.push('0');
    } else {
        push_rest(out, &whole, zeros);
    }
}

/// Appends the fraction of the literal: a decimal point and the digits
/// among `x[point..mark]`, or `0` where there are none.
fn push_fraction(out: &mut Vec<char>, x: &Vec<char>, point: usize, mark: usize)
    requires
        point < mark <= x.len(),
        x[point as int] == '.',
    ensures
        final(out)@ == old(out)@ + (seq!['.'] + or_zero(
            digits_of(x@.subrange(point as int, mark as int)),
        )),
{
    out.push('.');
    let before = out.len();
    push_digits(out, x, point + 1, mark);
    proof {
        lemma_digits_of_point(x@.subrange(point as int, mark as int));
        assert(x@.subrange(point as int, mark as int).skip(1) =~= x@.subrange(
            point + 1,
            mark as int,
        ));
    }
    if out.len() == before {
        out.push('0');
    }
}

/// Appends the exponent of the literal, where the text after the mark has
/// a digit: `e`, the sign that follows the mark, and the digits.
fn push_exponent(out: &mut Vec<char>, x: &Vec<char>, mark: usize)
    requires
        mark < x.len(),
    ensures
        ({
            let tail = x@.skip(mark + 1);
            let digits = digits_of(tail);
            let sign = if tail.len() > 0 && is_sign(tail[0]) {
                seq![tail[0]]
            } else {
                Seq::empty()
            };
            final(out)@ == old(out)@ + (if digits.len() > 0 {
                seq!['e'] + sign + digits
            } else {
                Seq::empty()
            })
        }),
{
    let n = x.len();
    let mut exponent: Vec<char> = Vec::new();
    push_digits(&mut exponent, x, mark + 1, n);
    if exponent.len() > 0 {
        out.push('e');
        if mark + 1 < n && (x[mark + 1] == '+' || x[mark + 1] == '-') {
            out.push(x[mark + 1]);
        }
        push_rest(out, &exponent, 0);
    }
}

/// The canonical literal of the characters `x`.
pub fn canonical_chars(x: &Vec<char>) -> (out: Vec<char>)
    ensures
        out@ == canonical_number(x@),
{
    let n = x.len();
    let mark = mark_position(x);
    let point = point_position(x, mark);
    let ghost mantissa = mantissa_of(x@);
    proof {
        lemma_find_point(mantissa, 0);
        assert(mantissa.take(point as int) =~= x@.take(point as int));
        assert(mantissa.skip(point as int) =~= x@.subrange(point as int, mark as int));
    }
    let mut out: Vec<char> = Vec::new();
    if n > 0 && x[0] == '-' {
        out.push('-');
    }
    push_whole(&mut out, x, point);
    if point < mark {
        push_fraction(&mut out, x, point, mark);
    }
    if mark < n {
        push_exponent(&mut out, x, mark);
    }
    out
}

/// A decimal point at the head of `s` is no digit: the digits of `s` are
/// those after it.
proof fn lemma_digits_of_point(s: Seq<char>)
    requires
        s.len() > 0,
        !is_digit(s[0]),
    ensures
        digits_of(s) == digits_of(s.skip(1)),
    decreases s.len(),
{
    if s.len() == 1 {
        assert(s.drop_last() =~= Seq::<char>::empty());
        assert(s.skip(1) =~= Seq::<char>::empty());
    } else {
        lemma_digits_of_point(s.drop_last());
        assert(s.drop_last().skip(1) =~= s.skip(1).drop_last());
    }
}

/// The canonical literal of the raw number text `raw`, as a string.
pub fn normalize(raw: &Vec<char>) -> (out: String)
    ensures
        out@ == canonical_number(raw@),
{
    let v = canonical_chars(raw);
    let out = collect(&v, 0, v.len());
    out
}

/// Rewrites the raw text of a number as its canonical literal.
///
/// The sign is kept if the text opens with a minus sign. The digits before
/// the first decimal point lose their leading zeros; where none is left,
/// the whole part is `0`. A decimal point before the exponent keeps the
/// digits behind it, or gets a `0`. The first exponent mark is written `e`
/// and keeps the sign that directly follows it and the digits behind it;
/// an exponent without digits is dropped. Every other character is
/// dropped. The result is a number as JSON writes it, and normalizing it
/// again changes nothing.
pub fn normalize_number(lex: &str) -> (out: String)
    ensures
        out@ == canonical_number(lex@),
        is_json_number(out@),
        canonical_number(out@) == out@,
{
    let x = to_chars(lex);
    proof {
        lemma_canonical_number_is_json(x@);
        lemma_canonical_number_idempotent(x@);
    }
    normalize(&x)
}

/// Whether every character of `s` is a decimal digit.
pub open spec fn all_digits(s: Seq<char>) -> bool {
    forall|k: int| 0 <= k < s.len() ==> is_digit(#[trigger] s[k])
}

/// Whether `s` is the whole part of a JSON number: one or more digits,
/// without a leading zero unless it is the single digit `0`.
pub open spec fn is_whole_part(s: Seq<char>) -> bool {
    s.len() > 0 && all_digits(s) && (s.len() > 1 ==> s[0] != '0')
}

/// Whether `s` is the fraction of a JSON number: nothing, or a decimal point
/// and one or more digits.
pub open spec fn is_fraction_part(s: Seq<char>) -> bool {
    s.len() == 0 || (s[0] == '.' && s.len() > 1 && all_digits(s.skip(1)))
}

/// Whether `s` is the exponent of a JSON number: nothing, or an exponent
/// mark, a sign or none, and one or more digits.
pub open spec fn is_exponent_part(s: Seq<char>) -> bool {
    s.len() == 0 || (is_exponent_mark(s[0]) && {
        let digits = if s.len() > 1 && is_sign(s[1]) {
            s.skip(2)
        } else {
            s.skip(1)
        };
        digits.len() > 0 && all_digits(digits)
    })
}

/// Whether `s` is a number as JSON writes it: a minus sign or none, the
/// whole part, the fraction, the exponent.
pub open spec fn is_json_number(s: Seq<char>) -> bool {
    exists|sign: Seq<char>, whole: Seq<char>, fraction: Seq<char>, exponent: Seq<char>|
        {
            &&& s == sign + whole + fraction + exponent
            &&& (sign.len() == 0 || sign == seq!['-'])
            &&& is_whole_part(whole)
            &&& is_fraction_part(fraction)
            &&& is_exponent_part(exponent)
        }
}

/// The sign of the literal of `p`.
pub open spec fn sign_text(p: NumberParts) -> Seq<char> {
    if p.negative {
        seq!['-']
    } else {
        Seq::empty()
    }
}

/// The whole part of the literal of `p`.
pub open spec fn whole_text(p: NumberParts) -> Seq<char> {
    or_zero(strip_zeros(p.whole))
}

/// The fraction of the literal of `p`.
pub open spec fn fraction_text(p: NumberParts) -> Seq<char> {
    if p.point {
        seq!['.'] + or_zero(p.fraction)
    } else {
        Seq::empty()
    }
}

/// The exponent of the literal of `p`.
pub open spec fn exponent_text(p: NumberParts) -> Seq<char> {
    if p.exponent.len() > 0 {
        seq!['e'] + p.exponent_sign + p.exponent
    } else {
        Seq::empty()
    }
}

/// Whether the parts `p` hold digits where digits belong, and a sign or
/// nothing for the sign of the exponent.
pub open spec fn proper_parts(p: NumberParts) -> bool {
    &&& all_digits(p.whole)
    &&& all_digits(p.fraction)
    &&& all_digits(p.exponent)
    &&& (p.exponent_sign.len() == 0 || (p.exponent_sign.len() == 1 && is_sign(p.exponent_sign[0])))
}

/// The digits of a text are digits.
pub proof fn lemma_digits_of_are_digits(s: Seq<char>)
    ensures
        all_digits(digits_of(s)),
    decreases s.len(),
{
    if s.len() > 0 {
        lemma_digits_of_are_digits(s.drop_last());
    }
}

/// The digits of two texts in a row are the digits of the first and then
/// those of the second.
pub proof fn lemma_digits_of_add(a: Seq<char>, b: Seq<char>)
    ensures
        digits_of(a + b) == digits_of(a) + digits_of(b),
    decreases b.len(),
{
    if b.len() > 0 {
        lemma_digits_of_add(a, b.drop_last());
        assert((a + b).drop_last() =~= a + b.drop_last());
    }
}

/// A text of digits is its own digits.
pub proof fn lemma_digits_of_digits(d: Seq<char>)
    requires
        all_digits(d),
    ensures
        digits_of(d) == d,
    decreases d.len(),
{
    if d.len() > 0 {
        lemma_digits_of_digits(d.drop_last());
    }
}

/// A text without digits has no digits.
pub proof fn lemma_digits_of_none(s: Seq<char>)
    requires
        forall|k: int| 0 <= k < s.len() ==> !is_digit(#[trigger] s[k]),
    ensures
        digits_of(s) == Seq::<char>::empty(),
    decreases s.len(),
{
    if s.len() > 0 {
        lemma_digits_of_none(s.drop_last());
    }
}

/// The first exponent mark at or after `from` stands at `at`, where none
/// stands between the two and one stands at `at` or the text ends there.
pub proof fn lemma_find_mark_is(s: Seq<char>, from: int, at: int)
    requires
        0 <= from <= at <= s.len(),
        forall|k: int| from <= k < at ==> !is_exponent_mark(#[trigger] s[k]),
        at < s.len() ==> is_exponent_mark(s[at]),
    ensures
        find_mark(s, from) == at,
    decreases at - from,
{
    if from < at {
        lemma_find_mark_is(s, from + 1, at);
    }
}

/// The first decimal point at or after `from` stands at `at`, where none
/// stands between the two and one stands at `at` or the text ends there.
pub proof fn lemma_find_point_is(s: Seq<char>, from: int, at: int)
    requires
        0 <= from <= at <= s.len(),
        forall|k: int| from <= k < at ==> #[trigger] s[k] != '.',
        at < s.len() ==> s[at] == '.',
    ensures
        find_point(s, from) == at,
    decreases at - from,
{
    if from < at {
        lemma_find_point_is(s, from + 1, at);
    }
}

/// The parts of a raw text are proper.
pub proof fn lemma_parts_of_are_proper(raw: Seq<char>)
    ensures
        proper_parts(parts_of(raw)),
{
    let mantissa = mantissa_of(raw);
    let point = find_point(mantissa, 0);
    lemma_digits_of_are_digits(mantissa.take(point));
    lemma_digits_of_are_digits(mantissa.skip(point));
    lemma_digits_of_are_digits(exponent_of(raw));
}

/// The whole part of a literal is one as JSON writes it.
pub proof fn lemma_whole_text(p: NumberParts)
    requires
        all_digits(p.whole),
    ensures
        is_whole_part(whole_text(p)),
        or_zero(strip_zeros(whole_text(p))) == whole_text(p),
{
    lemma_find_nonzero(p.whole, 0);
    let w = whole_text(p);
    if strip_zeros(p.whole).len() == 0 {
        assert(find_nonzero(w, 1) == 1);
    }
}

/// The literal of proper parts is a number as JSON writes it.
pub proof fn lemma_literal_is_json_number(p: NumberParts)
    requires
        proper_parts(p),
    ensures
        is_json_number(literal_of(p)),
{
    lemma_whole_text(p);
}

/// A text that ends where an exponent mark stands, or where the whole text
/// ends, is the mantissa; what follows the mark is the exponent.
pub proof fn lemma_split_at_mark(body: Seq<char>, rest: Seq<char>)
    requires
        forall|k: int| 0 <= k < body.len() ==> !is_exponent_mark(#[trigger] body[k]),
        rest.len() > 0 ==> is_exponent_mark(rest[0]),
    ensures
        mantissa_of(body + rest) == body,
        exponent_of(body + rest) == if rest.len() > 0 {
            rest.skip(1)
        } else {
            Seq::empty()
        },
{
    let y = body + rest;
    lemma_find_mark_is(y, 0, body.len() as int);
}

/// A text that ends where a decimal point stands, or where the whole text
/// ends, is what stands before the first decimal point.
pub proof fn lemma_split_at_point(head: Seq<char>, rest: Seq<char>)
    requires
        forall|k: int| 0 <= k < head.len() ==> #[trigger] head[k] != '.',
        rest.len() > 0 ==> rest[0] == '.',
    ensures
        find_point(head + rest, 0) == head.len(),
        (head + rest).take(head.len() as int) == head,
        (head + rest).skip(head.len() as int) == rest,
{
    let y = head + rest;
    lemma_find_point_is(y, 0, head.len() as int);
}

/// The digits of a text of digits behind a text without digits are that
/// text of digits.
pub proof fn lemma_digits_behind(front: Seq<char>, digits: Seq<char>)
    requires
        forall|k: int| 0 <= k < front.len() ==> !is_digit(#[trigger] front[k]),
        all_digits(digits),
    ensures
        digits_of(front + digits) == digits,
{
    lemma_digits_of_add(front, digits);
    lemma_digits_of_none(front);
    lemma_digits_of_digits(digits);
}

/// The sign, the whole part and the fraction of a literal hold no exponent
/// mark, and the first two no decimal point.
pub proof fn lemma_body_is_plain(p: NumberParts)
    requires
        proper_parts(p),
    ensures
        forall|k: int|
            0 <= k < (sign_text(p) + whole_text(p)).len() ==> (#[trigger] (sign_text(p)
                + whole_text(p))[k]) != '.',
        forall|k: int|
            0 <= k < (sign_text(p) + whole_text(p) + fraction_text(p)).len() ==> !is_exponent_mark(
                #[trigger] (sign_text(p) + whole_text(p) + fraction_text(p))[k],
            ),
        (sign_text(p) + whole_text(p))[0] == '-' <==> p.negative,
{
    lemma_whole_text(p);
}

/// The parts that a literal shows.
pub open spec fn shown_parts(p: NumberParts) -> NumberParts {
    NumberParts {
        negative: p.negative,
        whole: whole_text(p),
        point: p.point,
        fraction: if p.point {
            or_zero(p.fraction)
        } else {
            Seq::empty()
        },
        exponent_sign: if p.exponent.len() > 0 {
            p.exponent_sign
        } else {
            Seq::empty()
        },
        exponent: p.exponent,
    }
}

/// The mantissa of the literal of proper parts gives back the sign, the
/// whole part and the fraction that the literal shows.
pub proof fn lemma_mantissa_of_literal(p: NumberParts)
    requires
        proper_parts(p),
    ensures
        parts_of(literal_of(p)).negative == p.negative,
        parts_of(literal_of(p)).whole == whole_text(p),
        parts_of(literal_of(p)).point == p.point,
        parts_of(literal_of(p)).fraction == shown_parts(p).fraction,
{
    lemma_whole_text(p);
    let sign = sign_text(p);
    let whole = whole_text(p);
    let fraction = fraction_text(p);
    let exponent = exponent_text(p);
    let head = sign + whole;
    let body = head + fraction;
    lemma_split_at_mark(body, exponent);
    lemma_split_at_point(head, fraction);
    lemma_digits_behind(sign, whole);
    if p.point {
        lemma_digits_behind(seq!['.'], or_zero(p.fraction));
    }
}

/// The exponent of the literal of proper parts gives back the sign and the
/// digits that the literal shows.
pub proof fn lemma_exponent_of_literal(p: NumberParts)
    requires
        proper_parts(p),
    ensures
        parts_of(literal_of(p)).exponent_sign == shown_parts(p).exponent_sign,
        parts_of(literal_of(p)).exponent == p.exponent,
{
    lemma_body_is_plain(p);
    let body = sign_text(p) + whole_text(p) + fraction_text(p);
    let exponent = exponent_text(p);
    lemma_split_at_mark(body, exponent);
    if p.exponent.len() > 0 {
        let tail = p.exponent_sign + p.exponent;
        assert(exponent.skip(1) =~= tail);
        lemma_digits_behind(p.exponent_sign, p.exponent);
    }
}

/// The parts of the literal of proper parts are the parts that the literal
/// shows.
pub proof fn lemma_parts_of_literal(p: NumberParts)
    requires
        proper_parts(p),
    ensures
        parts_of(literal_of(p)) == shown_parts(p),
{
    lemma_mantissa_of_literal(p);
    lemma_exponent_of_literal(p);
}

/// A canonical literal is a number as JSON writes it, whatever the raw text
/// was.
pub proof fn lemma_canonical_number_is_json(raw: Seq<char>)
    ensures
        is_json_number(canonical_number(raw)),
{
    lemma_parts_of_are_proper(raw);
    lemma_literal_is_json_number(parts_of(raw));
}

/// Canonical literals stay as they are: to normalize twice is to normalize
/// once.
pub proof fn lemma_canonical_number_idempotent(raw: Seq<char>)
    ensures
        canonical_number(canonical_number(raw)) == canonical_number(raw),
{
    let p = parts_of(raw);
    lemma_parts_of_are_proper(raw);
    lemma_parts_of_literal(p);
    lemma_whole_text(p);
}

} // verus!
