use jsonfix::{fix, fix_without_formatting};

fn blanks(s: &[char], mut i: usize) -> usize {
    while i < s.len() && matches!(s[i], ' ' | '\t' | '\n' | '\r') {
        i += 1;
    }
    i
}

fn digits(s: &[char], mut i: usize) -> Option<usize> {
    let start = i;
    while i < s.len() && s[i].is_ascii_digit() {
        i += 1;
    }
    if i > start {
        Some(i)
    } else {
        None
    }
}

fn number(s: &[char], mut i: usize) -> Option<usize> {
    if i < s.len() && s[i] == '-' {
        i += 1;
    }
    let end = digits(s, i)?;
    if s[i] == '0' && end > i + 1 {
        return None;
    }
    i = end;
    if i < s.len() && s[i] == '.' {
        i = digits(s, i + 1)?;
    }
    if i < s.len() && (s[i] == 'e' || s[i] == 'E') {
        i += 1;
        if i < s.len() && (s[i] == '+' || s[i] == '-') {
            i += 1;
        }
        i = digits(s, i)?;
    }
    Some(i)
}

fn string(s: &[char], mut i: usize) -> Option<usize> {
    if i >= s.len() || s[i] != '"' {
        return None;
    }
    i += 1;
    loop {
        if i >= s.len() {
            return None;
        }
        match s[i] {
            '"' => return Some(i + 1),
            '\\' => {
                if i + 1 >= s.len() {
                    return None;
                }
                match s[i + 1] {
                    '"' | '\\' | '/' | 'b' | 'f' | 'n' | 'r' | 't' => i += 2,
                    'u' => {
                        if i + 6 > s.len() || !s[i + 2..i + 6].iter().all(|c| c.is_ascii_hexdigit())
                        {
                            return None;
                        }
                        i += 6;
                    }
                    _ => return None,
                }
            }
            c if (c as u32) < 0x20 => return None,
            _ => i += 1,
        }
    }
}

fn word(s: &[char], i: usize, w: &str) -> Option<usize> {
    let w: Vec<char> = w.chars().collect();
    if s.len() >= i + w.len() && s[i..i + w.len()] == w[..] {
        Some(i + w.len())
    } else {
        None
    }
}

fn value(s: &[char], i: usize) -> Option<usize> {
    let i = blanks(s, i);
    if i >= s.len() {
        return None;
    }
    let end = match s[i] {
        'n' => word(s, i, "null")?,
        't' => word(s, i, "true")?,
        'f' => word(s, i, "false")?,
        '"' => string(s, i)?,
        '[' => {
            let mut j = blanks(s, i + 1);
            if j < s.len() && s[j] == ']' {
                j + 1
            } else {
                loop {
                    j = value(s, j)?;
                    if j < s.len() && s[j] == ',' {
                        j += 1;
                    } else if j < s.len() && s[j] == ']' {
                        break j + 1;
                    } else {
                        return None;
                    }
                }
            }
        }
        '{' => {
            let mut j = blanks(s, i + 1);
            if j < s.len() && s[j] == '}' {
                j + 1
            } else {
                loop {
                    j = string(s, blanks(s, j))?;
                    j = blanks(s, j);
                    if j >= s.len() || s[j] != ':' {
                        return None;
                    }
                    j = value(s, j + 1)?;
                    if j < s.len() && s[j] == ',' {
                        j += 1;
                    } else if j < s.len() && s[j] == '}' {
                        break j + 1;
                    } else {
                        return None;
                    }
                }
            }
        }
        _ => number(s, i)?,
    };
    Some(blanks(s, end))
}

fn is_json(text: &str) -> bool {
    let s: Vec<char> = text.chars().collect();
    value(&s, 0) == Some(s.len())
}

#[test]
fn the_validator_knows_json() {
    for text in [
        "null",
        " true ",
        "-0",
        "0.5e-7",
        "\"a\\n\\u00e9\"",
        "[]",
        "[ 1 , [ ] , { } ]",
        "{\"a\":{\"b\":[1,2]}}",
        "{\n   \"a\": 1\n}",
    ] {
        assert!(is_json(text), "{:?}", text);
    }
    for text in [
        "", "nul", "01", "1.", ".5", "-", "1e", "+1", "\"a", "\"a\"b\"", "\"\n\"", "[1,]", "[1 2]",
        "{\"a\"}", "{a:1}", "{\"a\":1,}", "[", "1 2", "\"\\x\"", "\"\\u12\"",
    ] {
        assert!(!is_json(text), "{:?}", text);
    }
}

#[test]
fn every_text_is_repaired_to_json() {
    for text in [
        "",
        " ",
        "tru",
        "nul",
        "fals",
        "garbage",
        "@#$%^&*()",
        "\u{0}\u{1}\u{2}",
        "\u{fffd}\u{fffe}\u{10ffff}",
        "-",
        ".",
        "-.e+",
        "1e",
        "0000",
        "1.2.3.4",
        "--1",
        "1e1e1",
        "9" ,
        "[",
        "]",
        "{",
        "}",
        "[[[[[[",
        "]]]]]]",
        "{{{{",
        "[{[{[{",
        "[,,,,]",
        "[1 2 3]",
        "[1,2,3",
        "[tru, fals, nul, x, 1e, \"s",
        "{\"a\"",
        "{\"a\":",
        "{\"a\":1,",
        "{\"a\" 1 \"b\" 2}",
        "{\"a\":1,\"a\":2,\"a\":3}",
        "{1:2, true:false, \"k\": v}",
        "{\"k\":{\"k\":{\"k\":[{\"k\":",
        "\"unterminated",
        "\"\\uD800\"",
        "\"\\uZZZZ\"",
        "\"\\u00e9\\uD83D\\uDE00\"",
        "\"  [1, 2, {\\\"a\\\": tru  \"",
        "{\"arr\": \"[1,2,3]\", \"obj\": \"{}\"}",
        "  [ 1 , 2 ]  trailing",
        "\u{a0}[\u{2003}1\u{3000}]\u{85}",
        "[1e999, -0.000, 123456789012345678901234567890]",
    ] {
        let indented = fix(text);
        let compact = fix_without_formatting(text);
        assert!(is_json(&indented), "{:?} gave {:?}", text, indented);
        assert!(is_json(&compact), "{:?} gave {:?}", text, compact);
    }
}

#[test]
fn strings_that_need_an_escape_are_written_without_one() {
    assert_eq!(fix_without_formatting("\"a\\\"b\""), "\"a\"b\"");
    assert!(!is_json(&fix_without_formatting("\"a\\\"b\"")));
    assert_eq!(fix_without_formatting("\"a\\nb\""), "\"a\nb\"");
    assert!(!is_json(&fix_without_formatting("\"a\\nb\"")));
    assert_eq!(fix_without_formatting("\"a\\\\b\""), "\"a\\b\"");
    assert!(is_json(&fix_without_formatting("\"a\\\\b\"")));
    assert_eq!(fix_without_formatting("\"a\\\\xb\""), "\"a\\xb\"");
    assert!(!is_json(&fix_without_formatting("\"a\\\\xb\"")));
}

#[test]
fn a_text_with_an_escape_is_not_its_own_repair() {
    assert_eq!(fix_without_formatting("\"a\\tb\""), "\"a\tb\"");
    assert_eq!(fix_without_formatting("\"[1]\""), "[1]");
    assert_eq!(fix_without_formatting("1E5"), "1e5");
}
