use jsonfix::chars::{digit, hex_digit, number_char, space};
use jsonfix::escape::hex_code;
use jsonfix::number::{canonical_chars, normalize};
use jsonfix::text::{collect, to_chars, trimmed};
use jsonfix::value::{put, Json};

#[test]
fn space_is_unicode_white_space() {
    for code in 0..=0x10FFFFu32 {
        if let Some(c) = char::from_u32(code) {
            assert_eq!(space(c), c.is_whitespace(), "U+{:04X}", code);
        }
    }
}

#[test]
fn digit_is_ascii_digit() {
    for code in 0..=0x10FFFFu32 {
        if let Some(c) = char::from_u32(code) {
            assert_eq!(digit(c), c.is_ascii_digit(), "U+{:04X}", code);
        }
    }
}

#[test]
fn hex_digit_is_value_in_base_sixteen() {
    for code in 0..=0x10FFFFu32 {
        if let Some(c) = char::from_u32(code) {
            let expected = if c.is_ascii() { c.to_digit(16) } else { None };
            assert_eq!(hex_digit(c), expected, "U+{:04X}", code);
        }
    }
}

#[test]
fn number_char_is_one_of_sixteen() {
    let all: Vec<char> = (0..=0x10FFFFu32)
        .filter_map(char::from_u32)
        .filter(|c| number_char(*c))
        .collect();
    let text: String = all.into_iter().collect();
    assert_eq!(text, "+-.0123456789Ee");
}

#[test]
fn hex_code_reads_four_digits() {
    assert_eq!(hex_code('0', '0', '0', '0'), Some(0));
    assert_eq!(hex_code('0', '0', '4', '1'), Some(0x41));
    assert_eq!(hex_code('f', 'F', 'f', 'F'), Some(0xFFFF));
    assert_eq!(hex_code('D', '8', '3', 'd'), Some(0xD83D));
    assert_eq!(hex_code('1', '2', '3', 'g'), None);
    assert_eq!(hex_code('+', '1', '2', '3'), None);
    assert_eq!(hex_code('-', '1', '2', '3'), None);
    assert_eq!(hex_code(' ', '1', '2', '3'), None);
    for word in ["0000", "12ab", "ABCD", "ffff", "9e3F", "dead", "BEEF"] {
        let c: Vec<char> = word.chars().collect();
        assert_eq!(
            hex_code(c[0], c[1], c[2], c[3]),
            u32::from_str_radix(word, 16).ok()
        );
    }
}

#[test]
fn to_chars_and_collect_are_inverse() {
    for text in ["", "a", "héllo wörld", "\u{1F600}\u{10FFFF}\u{0}", "  x  "] {
        let chars = to_chars(text);
        assert_eq!(chars, text.chars().collect::<Vec<char>>());
        assert_eq!(collect(&chars, 0, chars.len()), text);
    }
    let chars = to_chars("abcdef");
    assert_eq!(collect(&chars, 2, 4), "cd");
    assert_eq!(collect(&chars, 3, 3), "");
    assert_eq!(collect(&chars, 0, 6), "abcdef");
}

#[test]
fn trimmed_is_trim() {
    for text in [
        "",
        " ",
        "   \t\n",
        "a",
        " a",
        "a ",
        "  a b  ",
        "\u{a0}x\u{3000}",
        "\u{2028}\u{2029} x y \u{85}\u{1680}",
        "\u{200b}x\u{200b}",
        "\u{feff} x",
        "\n\n[1, 2]\r\n",
    ] {
        assert_eq!(
            trimmed(to_chars(text)),
            text.trim().chars().collect::<Vec<char>>(),
            "{:?}",
            text
        );
    }
}

#[test]
fn canonical_chars_and_normalize_agree() {
    for raw in ["", "-", "007", "-1.50e+03", "1.2.3", "1e", ".", "e", "12E-0"] {
        let chars = to_chars(raw);
        let literal: String = canonical_chars(&chars).into_iter().collect();
        assert_eq!(normalize(&chars), literal);
    }
    assert_eq!(normalize(&to_chars("007")), "7");
    assert_eq!(normalize(&to_chars("-1.50e+03")), "-1.50e+03");
    assert_eq!(normalize(&to_chars("e")), "0");
    assert_eq!(normalize(&to_chars("12E-0")), "12e-0");
}

#[test]
fn put_replaces_and_moves_to_the_end() {
    let mut entries: Vec<(String, Json)> = Vec::new();
    put(&mut entries, String::from("a"), Json::Number(String::from("1")));
    put(&mut entries, String::from("b"), Json::Number(String::from("2")));
    put(&mut entries, String::from("c"), Json::Number(String::from("3")));
    assert_eq!(
        Json::Object(entries).stringify_without_formatting(),
        "{\"a\":1,\"b\":2,\"c\":3}"
    );
    let mut entries: Vec<(String, Json)> = Vec::new();
    put(&mut entries, String::from("a"), Json::Number(String::from("1")));
    put(&mut entries, String::from("b"), Json::Number(String::from("2")));
    put(&mut entries, String::from("a"), Json::True);
    assert_eq!(
        Json::Object(entries).stringify_without_formatting(),
        "{\"b\":2,\"a\":true}"
    );
    let mut entries: Vec<(String, Json)> = Vec::new();
    put(&mut entries, String::from(""), Json::Null);
    put(&mut entries, String::from(""), Json::False);
    assert_eq!(
        Json::Object(entries).stringify_without_formatting(),
        "{\"\":false}"
    );
}
