use jsonfix::number::normalize_number;
use jsonfix::parser::Parser;
use jsonfix::value::Json;
use jsonfix::{fix, fix_without_formatting};

#[test]
fn literal_cut_short_is_completed() {
    assert_eq!(fix("tru"), "true");
}

#[test]
fn decimal_point_without_digits_gets_a_zero() {
    assert_eq!(fix("-123."), "-123.0");
}

#[test]
fn open_array_is_closed_and_indented() {
    assert_eq!(fix("[1,2, 3"), "[\n   1,\n   2,\n   3\n]");
}

#[test]
fn repeated_key_keeps_last_value() {
    assert_eq!(fix("{\"a\":1,\"a\":2}"), "{\n   \"a\": 2\n}");
}

#[test]
fn key_without_colon_takes_what_follows() {
    assert_eq!(fix_without_formatting("{\"key\" value}"), "{\"key\":null}");
}

#[test]
fn string_that_holds_an_array_is_unfolded() {
    assert_eq!(
        fix_without_formatting("{\"arr\": \"[1,2,3]\"}"),
        "{\"arr\":[1,2,3]}"
    );
}

#[test]
fn lone_high_surrogate_is_dropped() {
    assert_eq!(fix_without_formatting("\"\\uD800\""), "\"\"");
}

#[test]
fn empty_and_blank_input_is_null() {
    assert_eq!(fix(""), "null");
    assert_eq!(fix("   \n\t "), "null");
    assert_eq!(fix_without_formatting(""), "null");
    assert_eq!(fix_without_formatting(" \u{a0}\u{3000} "), "null");
}

#[test]
fn unknown_character_is_null() {
    assert_eq!(fix_without_formatting("?"), "null");
    assert_eq!(fix_without_formatting("[?]"), "[null]");
    assert_eq!(fix_without_formatting("\u{1}\u{2}\u{fffd}"), "null");
}

#[test]
fn literals_go_by_their_first_letter() {
    assert_eq!(fix_without_formatting("[t, F, n, Nope]"), "[true,false,null,null]");
    assert_eq!(fix_without_formatting("{\"a\":tRUE,\"b\":nil}"), "{\"a\":true,\"b\":null}");
}

#[test]
fn garbage_after_an_item_is_passed_over() {
    assert_eq!(fix_without_formatting("[1 abc 2]"), "[1]");
    assert_eq!(fix_without_formatting("[1 abc, 2]"), "[1,2]");
    assert_eq!(fix_without_formatting("[\"a\" \"b\"]"), "[\"a\"]");
}

#[test]
fn commas_are_absorbed() {
    assert_eq!(fix_without_formatting("[,,1,,2,,]"), "[1,2]");
    assert_eq!(fix_without_formatting("[ , ]"), "[]");
}

#[test]
fn nested_containers_close_where_the_text_ends() {
    assert_eq!(fix_without_formatting("[[1,[2"), "[[1,[2]]]");
    assert_eq!(fix_without_formatting("{\"a\":[{\"b\":1"), "{\"a\":[{\"b\":1}]}");
}

#[test]
fn keys_that_are_no_strings_are_dropped() {
    assert_eq!(fix_without_formatting("{123:4}"), "{}");
    assert_eq!(fix_without_formatting("{true:1,\"a\":2}"), "{\"a\":2}");
    assert_eq!(fix_without_formatting("{abc}"), "{}");
}

#[test]
fn key_at_the_end_of_the_text_gets_null() {
    assert_eq!(fix_without_formatting("{\"a\""), "{\"a\":null}");
    assert_eq!(fix_without_formatting("{\"a\":"), "{\"a\":null}");
    assert_eq!(fix_without_formatting("{\"a"), "{\"a\":null}");
}

#[test]
fn repeated_key_moves_to_the_end() {
    assert_eq!(
        fix_without_formatting("{\"a\":1,\"b\":2,\"a\":3}"),
        "{\"b\":2,\"a\":3}"
    );
    assert_eq!(
        fix_without_formatting("{\"a\":1,\"b\":2,\"c\":3,\"b\":4,\"a\":5}"),
        "{\"c\":3,\"b\":4,\"a\":5}"
    );
}

#[test]
fn simple_escapes_are_decoded() {
    assert_eq!(fix_without_formatting("\"a\\nb\""), "\"a\nb\"");
    assert_eq!(fix_without_formatting("\"a\\tb\\rc\""), "\"a\tb\rc\"");
    assert_eq!(fix_without_formatting("\"\\b\\f\""), "\"\u{8}\u{c}\"");
    assert_eq!(fix_without_formatting("\"a\\/b\""), "\"a/b\"");
    assert_eq!(fix_without_formatting("\"a\\\\b\""), "\"a\\b\"");
    assert_eq!(fix_without_formatting("\"a\\\"b\""), "\"a\"b\"");
}

#[test]
fn unknown_escape_letter_stands_for_itself() {
    assert_eq!(fix_without_formatting("\"a\\qb\""), "\"aqb\"");
    assert_eq!(fix_without_formatting("\"\\x41\""), "\"x41\"");
}

#[test]
fn backslash_at_the_end_is_dropped() {
    assert_eq!(fix_without_formatting("\"abc\\"), "\"abc\"");
}

#[test]
fn unicode_escapes_are_decoded() {
    assert_eq!(fix_without_formatting("\"\\u0041\""), "\"A\"");
    assert_eq!(fix_without_formatting("\"\\u00e9\\u00E9\""), "\"\u{e9}\u{e9}\"");
    assert_eq!(fix_without_formatting("\"\\uFFFF\""), "\"\u{ffff}\"");
    assert_eq!(fix_without_formatting("\"\\u0000\""), "\"\u{0}\"");
}

#[test]
fn surrogate_pairs_are_combined() {
    assert_eq!(fix_without_formatting("\"\\uD83D\\uDE00\""), "\"\u{1F600}\"");
    assert_eq!(fix_without_formatting("\"\\uD800\\uDC00\""), "\"\u{10000}\"");
    assert_eq!(fix_without_formatting("\"\\uDBFF\\uDFFF\""), "\"\u{10FFFF}\"");
}

#[test]
fn broken_unicode_escapes_decode_to_nothing() {
    assert_eq!(fix_without_formatting("\"a\\uZZZZb\""), "\"ab\"");
    assert_eq!(fix_without_formatting("\"a\\u+123b\""), "\"ab\"");
    assert_eq!(fix_without_formatting("\"a\\uDC00b\""), "\"ab\"");
    assert_eq!(fix_without_formatting("\"a\\uD800\\u0041b\""), "\"ab\"");
    assert_eq!(fix_without_formatting("\"a\\uD800xyb\""), "\"ab\"");
    assert_eq!(fix_without_formatting("\"a\\uD800\\uZZZZb\""), "\"ab\"");
    assert_eq!(fix_without_formatting("\"a\\u12"), "\"a\"");
    assert_eq!(fix_without_formatting("\"a\\uD800\\u12"), "\"a\"");
    assert_eq!(fix_without_formatting("\"a\\uD800\\"), "\"a\"");
}

#[test]
fn broken_escape_reads_its_four_characters() {
    assert_eq!(fix_without_formatting("[\"a\\u12\"], 5]"), "[\"a, 5]\"]");
}

#[test]
fn stray_number_characters_are_dropped() {
    assert_eq!(fix_without_formatting("123.00.01"), "123.0001");
    assert_eq!(fix_without_formatting("1-2"), "12");
    assert_eq!(fix_without_formatting("--5"), "-5");
    assert_eq!(fix_without_formatting("1e5e-3"), "1e53");
    assert_eq!(fix_without_formatting("1e5.3"), "1e53");
    assert_eq!(fix_without_formatting("1e-+5"), "1e-5");
    assert_eq!(fix_without_formatting("1eE-5"), "1e5");
    assert_eq!(fix_without_formatting("+5"), "null");
}

#[test]
fn numbers_keep_every_digit() {
    assert_eq!(
        fix_without_formatting("123456789012345678901234567890.123456789012345678901234567890"),
        "123456789012345678901234567890.123456789012345678901234567890"
    );
    assert_eq!(fix_without_formatting("1e999"), "1e999");
    assert_eq!(fix_without_formatting("1E-999"), "1e-999");
    assert_eq!(fix_without_formatting("1e007"), "1e007");
}

#[test]
fn numbers_without_whole_digits_get_a_zero() {
    assert_eq!(fix_without_formatting("."), "0.0");
    assert_eq!(fix_without_formatting("-"), "-0");
    assert_eq!(fix_without_formatting("-."), "-0.0");
    assert_eq!(fix_without_formatting("-.5"), "-0.5");
    assert_eq!(fix_without_formatting("-e5"), "-0e5");
    assert_eq!(fix_without_formatting(".e5"), "0.0e5");
    assert_eq!(fix_without_formatting("-0"), "-0");
    assert_eq!(fix_without_formatting("0e5"), "0e5");
    assert_eq!(fix_without_formatting("1.e5"), "1.0e5");
    assert_eq!(fix_without_formatting("000.500"), "0.500");
}

#[test]
fn normalize_number_gives_the_canonical_literal() {
    assert_eq!(normalize_number("000123"), "123");
    assert_eq!(normalize_number("00"), "0");
    assert_eq!(normalize_number(""), "0");
    assert_eq!(normalize_number("-"), "-0");
    assert_eq!(normalize_number(".5"), "0.5");
    assert_eq!(normalize_number("123."), "123.0");
    assert_eq!(normalize_number("-123."), "-123.0");
    assert_eq!(normalize_number("1e"), "1");
    assert_eq!(normalize_number("100e+"), "100");
    assert_eq!(normalize_number("100e-"), "100");
    assert_eq!(normalize_number("123E2"), "123e2");
    assert_eq!(normalize_number("1E+10"), "1e+10");
    assert_eq!(normalize_number("12x3"), "123");
    assert_eq!(normalize_number("abc"), "0");
}

#[test]
fn normalize_number_twice_is_once() {
    for raw in [
        "0", "-0", "000123", "-123.", ".5", "1e", "100e+", "123E2", "1e-10", "123.00.01",
        "-e5", ".e5", "--5", "1e5e-3", "", "-", ".", "9.", "0.0", "1.0e+5",
    ] {
        let once = normalize_number(raw);
        assert_eq!(normalize_number(&once), once);
    }
}

#[test]
fn compact_documents_come_back_unchanged() {
    for text in [
        "null",
        "true",
        "false",
        "0",
        "-12.5e+3",
        "\"text\"",
        "\" padded \"",
        "[]",
        "{}",
        "[1,2,3]",
        "[null,true,false]",
        "{\"a\":1,\"b\":[true,null,{\"c\":\"d\"}]}",
        "[[[]],{\"k\":{}}]",
        "{\"a\":null,\"b\":false}",
    ] {
        assert_eq!(fix_without_formatting(text), text);
    }
}

#[test]
fn repair_twice_is_repair_once() {
    for text in [
        "[1,2, 3",
        "{\"a\":1,\"a\":2",
        "{\"arr\": \"[1,2,3]\"}",
        "[tru, fals, nul",
        "-123.",
        "{\"k\" 1e+}",
    ] {
        let once = fix_without_formatting(text);
        assert_eq!(fix_without_formatting(&once), once);
    }
}

#[test]
fn strings_inside_strings_are_unfolded_to_any_depth() {
    assert_eq!(
        fix_without_formatting("[\"[\\\"[1]\\\"]\"]"),
        "[[[1]]]"
    );
    assert_eq!(
        fix_without_formatting("\"  {\\\"a\\\": \\\"[tru\\\"}  \""),
        "{\"a\":[true]}"
    );
    assert_eq!(fix_without_formatting("\"{\""), "{}");
    assert_eq!(fix_without_formatting("\"[\""), "[]");
}

#[test]
fn strings_that_are_no_documents_stay() {
    assert_eq!(fix_without_formatting("\"a[1]\""), "\"a[1]\"");
    assert_eq!(fix_without_formatting("\"  plain  \""), "\"  plain  \"");
    assert_eq!(fix_without_formatting("\"\""), "\"\"");
    assert_eq!(fix_without_formatting("\"   \""), "\"   \"");
}

#[test]
fn keys_are_never_unfolded() {
    assert_eq!(fix_without_formatting("{\"[1]\":\"[2]\"}"), "{\"[1]\":[2]}");
}

#[test]
fn unfolding_keeps_the_order_of_the_keys() {
    assert_eq!(
        fix_without_formatting("{\"b\":\"[1]\",\"a\":\"{}\",\"c\":3}"),
        "{\"b\":[1],\"a\":{},\"c\":3}"
    );
}

#[test]
fn pretty_text_is_indented_by_three_spaces() {
    assert_eq!(fix("[]"), "[]");
    assert_eq!(fix("{}"), "{}");
    assert_eq!(fix("[[]]"), "[\n   []\n]");
    assert_eq!(
        fix("{\"a\":[1,{\"b\":null}],\"c\":\"d\"}"),
        "{\n   \"a\": [\n      1,\n      {\n         \"b\": null\n      }\n   ],\n   \"c\": \"d\"\n}"
    );
}

#[test]
fn stringify_starts_at_the_given_level() {
    let tree = Parser::new("[1,[2]]").parse_and_fix();
    assert_eq!(tree.stringify(0), "[\n   1,\n   [\n      2\n   ]\n]");
    assert_eq!(
        tree.stringify(2),
        "[\n         1,\n         [\n            2\n         ]\n      ]"
    );
    assert_eq!(tree.stringify_without_formatting(), "[1,[2]]");
}

#[test]
fn strings_are_written_as_they_are_stored() {
    assert_eq!(fix_without_formatting("\"a\\\"b\""), "\"a\"b\"");
    assert_eq!(fix("\"line1\\nline2\""), "\"line1\nline2\"");
}

#[test]
fn parser_trims_its_input() {
    let tree = Parser::new(" \n\t [1] \r\n").parse_and_fix();
    assert_eq!(tree.stringify_without_formatting(), "[1]");
}

#[test]
fn parser_leaves_strings_folded() {
    let tree = Parser::new("[\"[1]\"]").parse_and_fix();
    assert_eq!(tree.stringify_without_formatting(), "[\"[1]\"]");
    assert_eq!(
        tree.deserialize_all().stringify_without_formatting(),
        "[[1]]"
    );
}

#[test]
fn parser_reads_one_value_after_the_other() {
    let mut parser = Parser::new("1 2 [3]");
    assert_eq!(parser.parse_and_fix().stringify_without_formatting(), "1");
    assert_eq!(parser.parse_and_fix().stringify_without_formatting(), "2");
    assert_eq!(parser.parse_and_fix().stringify_without_formatting(), "[3]");
    assert_eq!(parser.parse_and_fix().stringify_without_formatting(), "null");
}

#[test]
fn deserialize_all_twice_is_once() {
    let once = Parser::new("[\"[\\\"{}\\\"]\", \"x\", {\"k\":\"[1\"}]")
        .parse_and_fix()
        .deserialize_all();
    let text = once.stringify_without_formatting();
    assert_eq!(text, "[[{}],\"x\",{\"k\":[1]}]");
    assert_eq!(once.deserialize_all().stringify_without_formatting(), text);
}

#[test]
fn trees_can_be_built_by_hand() {
    let tree = Json::Array(vec![
        Json::Null,
        Json::True,
        Json::False,
        Json::Number(String::from("1.5")),
        Json::String(String::from("s")),
        Json::Object(vec![(String::from("k"), Json::Array(vec![]))]),
    ]);
    assert_eq!(
        tree.stringify_without_formatting(),
        "[null,true,false,1.5,\"s\",{\"k\":[]}]"
    );
    assert_eq!(
        tree.stringify(0),
        "[\n   null,\n   true,\n   false,\n   1.5,\n   \"s\",\n   {\n      \"k\": []\n   }\n]"
    );
}

#[test]
fn white_space_of_every_kind_is_skipped() {
    assert_eq!(
        fix_without_formatting("[\u{a0}1\u{2003},\u{3000}2\u{85}]"),
        "[1,2]"
    );
    assert_eq!(fix_without_formatting("{ \"a\" \u{2028}: \u{205f}1 }"), "{\"a\":1}");
}
