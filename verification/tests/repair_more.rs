use jsonfix::fix_without_formatting;

#[test]
fn tests_test_static_values() {
    assert_eq!(String::from("true"), fix_without_formatting("true"));
    assert_eq!(String::from("false"), fix_without_formatting("false"));
    assert_eq!(String::from("null"), fix_without_formatting("null"));

    // Partial / incomplete values
    assert_eq!(String::from("true"), fix_without_formatting("tru"));
    assert_eq!(String::from("false"), fix_without_formatting("fals"));
    assert_eq!(String::from("null"), fix_without_formatting("nul"));

    // Wrong casing
    assert_eq!(String::from("true"), fix_without_formatting("True"));
    assert_eq!(String::from("false"), fix_without_formatting("FALSE"));
    assert_eq!(String::from("null"), fix_without_formatting("NuLl"));

    // Extra characters
    assert_eq!(String::from("true"), fix_without_formatting("truefalse01"));
    assert_eq!(String::from("false"), fix_without_formatting("false123"));
    assert_eq!(String::from("null"), fix_without_formatting("null,bla"));

    // Leading/trailing whitespace
    assert_eq!(String::from("true"), fix_without_formatting("  true  "));
    assert_eq!(String::from("false"), fix_without_formatting("\nfalse\t"));
    assert_eq!(String::from("null"), fix_without_formatting("null "));
}

#[test]
fn tests_test_strings() {
    assert_eq!(
        String::from("\"test\""),
        fix_without_formatting("\"test\"")
    );

    // missing closing quote
    assert_eq!(String::from("\"test\""), fix_without_formatting("\"test"));

    // newline escape
    assert_eq!(
        String::from("\"line1\nline2\""),
        fix_without_formatting("\"line1\nline2\"")
    );
}

#[test]
fn tests_test_arrays() {
    assert_eq!(String::from("[]"), fix_without_formatting("[]"));
    assert_eq!(String::from("[1]"), fix_without_formatting("[1]"));
    assert_eq!(String::from("[1,2]"), fix_without_formatting("[1,2]"));
    assert_eq!(String::from("[1,2,3]"), fix_without_formatting("[1,2, 3]"));
    assert_eq!(
        String::from("[1,\"test\",1.5,null,true]"),
        fix_without_formatting("[1,\"test\", 1.5, null, true]")
    );

    // unclosed
    assert_eq!(String::from("[]"), fix_without_formatting("["));
    assert_eq!(String::from("[1]"), fix_without_formatting("[1"));
    assert_eq!(String::from("[1,2]"), fix_without_formatting("[1, 2"));

    // trailing comma
    assert_eq!(String::from("[]"), fix_without_formatting("[,"));
    assert_eq!(String::from("[1]"), fix_without_formatting("[1,"));
    assert_eq!(String::from("[1,2]"), fix_without_formatting("[1, 2,"));

    // nested
    assert_eq!(String::from("[[[]]]"), fix_without_formatting("[[[]]]"));
    assert_eq!(String::from("[[[]]]"), fix_without_formatting("[[[],]"));
}

#[test]
fn tests_test_objects() {
    assert_eq!(String::from("{}"), fix_without_formatting("{}"));
    assert_eq!(
        String::from("{\"k\":1}"),
        fix_without_formatting("{\"k\":1}")
    );
    assert_eq!(
        String::from("{\"nums\":[1,2,3]}"),
        fix_without_formatting("{\"nums\":[1,2,3]}")
    );
    assert_eq!(
        String::from("{\"list\":[{\"id\":1},{\"id\":2}]}"),
        fix_without_formatting("{\"list\":[{\"id\":1},{\"id\":2}]}")
    );
    assert_eq!(
        String::from("{\"grid\":[[1,2],[3,4]]}"),
        fix_without_formatting("{\"grid\":[[1,2],[3,4]]}")
    );
    assert_eq!(
        String::from("{\"a\":{\"b\":2}}"),
        fix_without_formatting("{\"a\": {\"b\":2}")
    );
    assert_eq!(
        String::from("{\"a\":{\"b\":{\"c\":{\"d\":42}}}}"),
        fix_without_formatting("{\"a\":{\"b\":{\"c\":{\"d\":42}}}}")
    );

    // unclosed
    assert_eq!(String::from("{}"), fix_without_formatting("{"));
    assert_eq!(
        String::from("{\"k\":1}"),
        fix_without_formatting("{\"k\":1")
    );

    // trailing comma
    assert_eq!(
        String::from("{\"a\":1}"),
        fix_without_formatting("{\"a\":1,")
    );
    assert_eq!(
        String::from("{\"a\":1}"),
        fix_without_formatting("{\"a\":1,},,")
    );

    // duplicated keys
    assert_eq!(
        String::from("{\"a\":2}"),
        fix_without_formatting("{\"a\":1,\"a\":2}")
    );
}
