use vdf_parser::parser::parse;
use vdf_parser::tree::VdfValue;

fn val(s: &str) -> VdfValue {
    VdfValue::Value(s.to_string())
}

fn tbl(entries: Vec<(&str, VdfValue)>) -> VdfValue {
    VdfValue::Table(entries.into_iter().map(|(k, v)| (k.to_string(), v)).collect())
}

#[test]
fn test_parse_simple_vdf() {
    let input = r#""Key" "Value""#;
    let expected = tbl(vec![("Key", val("Value"))]);
    assert_eq!(parse(input, false).unwrap(), expected);
}

#[test]
fn test_parse_nested_vdf() {
    let input = r#""RootKey"
{
    "SubKey1" "Value1"
    "SubKey2"
    {
        "NestedKey" "NestedValue"
    }
    "SubKey3" "Value3"
}"#;
    let expected = tbl(vec![(
        "RootKey",
        tbl(vec![
            ("SubKey1", val("Value1")),
            ("SubKey2", tbl(vec![("NestedKey", val("NestedValue"))])),
            ("SubKey3", val("Value3")),
        ]),
    )]);
    assert_eq!(parse(input, false).unwrap(), expected);
}

#[test]
fn test_parse_vdf_with_comments() {
    let input = r#""RootKey" // This is a comment
{
    "SubKey1" "Value1" // Another comment
    // This is a full line comment
    "SubKey2"
    {
        "NestedKey" "NestedValue"
    }
    "SubKey3" "Value3"
}"#;
    let expected = tbl(vec![(
        "RootKey",
        tbl(vec![
            ("SubKey1", val("Value1")),
            ("SubKey2", tbl(vec![("NestedKey", val("NestedValue"))])),
            ("SubKey3", val("Value3")),
        ]),
    )]);
    assert_eq!(parse(input, false).unwrap(), expected);
}

#[test]
fn nested_braces_mirror_input() {
    let input = "\"Root\"\n{\n  \"A\" \"1\"\n  \"B\"\n  {\n    \"C\" \"2\"\n  }\n}";
    let expected = tbl(vec![(
        "Root",
        tbl(vec![("A", val("1")), ("B", tbl(vec![("C", val("2"))]))]),
    )]);
    assert_eq!(parse(input, false).unwrap(), expected);
}

#[test]
fn trailing_comment_is_ignored() {
    let input = "\"K\" \"V\" // note";
    let expected = tbl(vec![("K", val("V"))]);
    assert_eq!(parse(input, false).unwrap(), expected);
}

#[test]
fn escaped_quote_is_preserved() {
    let input = "\"K\" \"V\\\"Q\"";
    let expected = tbl(vec![("K", val("V\"Q"))]);
    assert_eq!(parse(input, false).unwrap(), expected);
}

#[test]
fn escaped_backslash_is_one_backslash() {
    let input = "\"K\" \"a\\\\b\"";
    let expected = tbl(vec![("K", val("a\\b"))]);
    assert_eq!(parse(input, false).unwrap(), expected);
}

#[test]
fn backslash_before_ordinary_char_is_dropped() {
    let input = "\"K\" \"a\\bc\"";
    let expected = tbl(vec![("K", val("abc"))]);
    assert_eq!(parse(input, false).unwrap(), expected);
}

#[test]
fn key_without_value_fails() {
    let r = parse("\"K\"", false);
    assert_eq!(r, Err("Unexpected end of input: missing value".to_string()));
}

#[test]
fn key_without_value_fails_even_lossy() {
    let r = parse("\"K\"", true);
    assert_eq!(r, Err("Unexpected end of input: missing value".to_string()));
}

#[test]
fn unterminated_value_lossy_keeps_partial() {
    let input = "\"K\" \"V";
    let expected = tbl(vec![("K", val("V"))]);
    assert_eq!(parse(input, true).unwrap(), expected);
}

#[test]
fn unterminated_value_strict_fails() {
    let r = parse("\"K\" \"V", false);
    assert_eq!(
        r,
        Err("Unexpected end of input: unclosed string".to_string())
    );
}

#[test]
fn unterminated_empty_value_lossy() {
    let input = "\"K\" \"";
    let expected = tbl(vec![("K", val(""))]);
    assert_eq!(parse(input, true).unwrap(), expected);
}

#[test]
fn unterminated_key_strict_fails() {
    let r = parse("\"K", false);
    assert_eq!(
        r,
        Err("Unexpected end of input: unclosed string".to_string())
    );
}

#[test]
fn unterminated_key_lossy_still_needs_value() {
    // Lossy mode recovers the partial key, but the value is then missing.
    let r = parse("\"K", true);
    assert_eq!(r, Err("Unexpected end of input: missing value".to_string()));
}

#[test]
fn empty_input_is_empty_table() {
    assert_eq!(parse("", false).unwrap(), tbl(vec![]));
}

#[test]
fn whitespace_and_comments_only_is_empty_table() {
    assert_eq!(parse("  \t\n// nothing here\n  ", false).unwrap(), tbl(vec![]));
}

#[test]
fn empty_nested_table() {
    let input = "\"R\" {}";
    let expected = tbl(vec![("R", tbl(vec![]))]);
    assert_eq!(parse(input, false).unwrap(), expected);
}

#[test]
fn flat_pairs_accumulate_in_order() {
    let input = "\"b\" \"2\" \"a\" \"1\" \"c\" \"3\"";
    let expected = tbl(vec![("b", val("2")), ("a", val("1")), ("c", val("3"))]);
    assert_eq!(parse(input, false).unwrap(), expected);
}

#[test]
fn duplicate_key_last_write_wins() {
    let input = "\"a\" \"1\" \"a\" \"2\"";
    let expected = tbl(vec![("a", val("2"))]);
    assert_eq!(parse(input, false).unwrap(), expected);
}

#[test]
fn duplicate_key_keeps_first_position() {
    let input = "\"a\" \"1\" \"b\" \"2\" \"a\" \"3\"";
    let expected = tbl(vec![("a", val("3")), ("b", val("2"))]);
    assert_eq!(parse(input, false).unwrap(), expected);
}

#[test]
fn duplicate_key_inside_table() {
    let input = "\"R\" { \"x\" \"1\" \"x\" \"2\" }";
    let expected = tbl(vec![("R", tbl(vec![("x", val("2"))]))]);
    assert_eq!(parse(input, false).unwrap(), expected);
}

#[test]
fn trailing_garbage_after_pairs_is_ignored() {
    let input = "\"K\" \"V\" garbage {";
    let expected = tbl(vec![("K", val("V"))]);
    assert_eq!(parse(input, false).unwrap(), expected);
}

#[test]
fn unquoted_token_in_table_fails() {
    let r = parse("\"R\" { junk }", false);
    assert_eq!(
        r,
        Err("Unexpected token in table: expected key or '}'".to_string())
    );
}

#[test]
fn unclosed_table_fails() {
    let r = parse("\"R\" {", false);
    assert_eq!(
        r,
        Err("Unexpected token in table: expected key or '}'".to_string())
    );
}

#[test]
fn missing_value_inside_table_fails() {
    let r = parse("\"R\" { \"a\" }", false);
    assert_eq!(r, Err("Unexpected end of input: missing value".to_string()));
}

#[test]
fn missing_value_inside_table_fails_even_lossy() {
    let r = parse("\"R\" { \"a\" }", true);
    assert_eq!(r, Err("Unexpected end of input: missing value".to_string()));
}

#[test]
fn single_slash_is_not_a_comment() {
    // A lone '/' is no comment: inside a table it is an unexpected token.
    let r = parse("\"R\" { / }", false);
    assert_eq!(
        r,
        Err("Unexpected token in table: expected key or '}'".to_string())
    );
}

#[test]
fn comment_ends_at_carriage_return() {
    let input = "\"K\" // note\r\"V\"\r\n\"K2\" \"V2\"";
    let expected = tbl(vec![("K", val("V")), ("K2", val("V2"))]);
    assert_eq!(parse(input, false).unwrap(), expected);
}

#[test]
fn comments_do_not_change_the_tree() {
    let with = "// lead\n\"K\" // a\n{ // b\n\"x\" // c\n\"1\" // d\n} // e";
    let without = "\n\"K\" \n{ \n\"x\" \n\"1\" \n} ";
    assert_eq!(parse(with, false), parse(without, false));
}

#[test]
fn comment_text_inside_string_is_kept() {
    let input = "\"K\" \"V // not a comment\"";
    let expected = tbl(vec![("K", val("V // not a comment"))]);
    assert_eq!(parse(input, false).unwrap(), expected);
}

#[test]
fn round_trip_canonical_text() {
    // The canonical, separator-free serialization of a tree parses
    // back to exactly that tree.
    let tree = tbl(vec![
        ("a", val("1")),
        ("t", tbl(vec![("q", val("he said \"hi\"")), ("w", tbl(vec![]))])),
        ("z", val("back\\slash")),
    ]);
    let text = "\"a\"\"1\"\"t\"{\"q\"\"he said \\\"hi\\\"\"\"w\"{}}\"z\"\"back\\\\slash\"";
    assert_eq!(parse(text, false).unwrap(), tree);
    assert_eq!(parse(text, true).unwrap(), tree);
}

#[test]
fn deeply_nested_tables() {
    let input = "\"a\" { \"b\" { \"c\" { \"d\" \"x\" } } }";
    let expected = tbl(vec![(
        "a",
        tbl(vec![("b", tbl(vec![("c", tbl(vec![("d", val("x"))]))]))]),
    )]);
    assert_eq!(parse(input, false).unwrap(), expected);
}

#[test]
fn unicode_content_and_whitespace() {
    let input = "\"ключ\"\u{3000}\"значение\"";
    let expected = tbl(vec![("ключ", val("значение"))]);
    assert_eq!(parse(input, false).unwrap(), expected);
}
