use cson::CsonParser;

fn err(input: &str) -> String {
    CsonParser::new(input).parse().expect_err("the input is rejected")
}

#[test]
fn unclosed_object_is_rejected() {
    assert_eq!(err("a: {"), "Unclosed object at line 1, col 5");
    assert_eq!(err("a: {\n  b: 1\n"), "Unclosed object at line 3, col 1");
}

#[test]
fn unclosed_array_is_rejected() {
    assert_eq!(err("a: [1, 2"), "Unclosed array at line 1, col 9");
}

#[test]
fn unclosed_string_is_rejected() {
    assert_eq!(err("a: \"abc"), "Unclosed string at line 1, col 8");
}

#[test]
fn unclosed_section_is_rejected() {
    assert_eq!(err("[sec\na: 1"), "Unclosed section at line 1, col 2");
}

#[test]
fn unclosed_annotation_args_are_rejected() {
    assert_eq!(err("@ann(abc"), "Unclosed annotation args at line 1, col 6");
}

#[test]
fn unclosed_annotation_properties_are_rejected() {
    assert_eq!(err("@ann { k: \"v\""), "Unclosed annotation properties at line 1, col 14");
}

#[test]
fn property_without_colon_is_rejected() {
    assert_eq!(err("@ann { k }"), "Missing colon in annotation property at line 1, col 8");
}

#[test]
fn pair_without_colon_is_rejected() {
    assert_eq!(err("abc"), "Missing colon in kv pair at line 1, col 1");
    assert_eq!(err("\"abc\" 1"), "Expected ':' after key at line 1, col 7");
}

#[test]
fn missing_value_is_rejected() {
    assert_eq!(err("a:"), "Unexpected end of input when parsing value at line 1, col 3");
}

#[test]
fn value_annotation_other_than_synthesize_is_rejected() {
    assert_eq!(err("a: @foo"), "Only @synthesize is supported as a value annotation at line 1, col 8");
}

#[test]
fn duplicate_confidence_is_rejected() {
    assert_eq!(err("a: 1 ~0.5 ~0.6"), "Duplicate confidence on a node at line 1, col 15");
}

#[test]
fn stray_characters_in_containers_are_rejected() {
    assert_eq!(err("a: { [ }"), "Unexpected character in object at line 1, col 6");
    assert_eq!(err("a: [}]"), "Unexpected character in array at line 1, col 5");
}

#[test]
fn parser_error_reports_line_and_column() {
    let mut p = CsonParser::new("ab\ncd");
    p.pos = 4;
    assert_eq!(p.error("Oops"), "Oops at line 2, col 2");
    p.pos = 0;
    assert_eq!(p.error("Oops"), "Oops at line 1, col 1");
}

#[test]
fn section_over_a_non_object_is_a_duplicate_key() {
    assert_eq!(err("a: 1\n[a]\nx: 1"), "Duplicate key: a at line 3, col 5");
}

#[test]
fn stray_closing_bracket_in_document_is_rejected() {
    assert_eq!(err("a: 1\n}\nb: 2"), "Unexpected character in document at line 2, col 1");
    assert_eq!(err("]"), "Unexpected character in document at line 1, col 1");
}

#[test]
fn array_elements_must_be_separated_by_commas() {
    assert_eq!(err("a: [1 @x ~0.5]"), "Expected ',' or ']' in array at line 1, col 10");
    assert_eq!(err("a: [\"a\" \"b\"]"), "Expected ',' or ']' in array at line 1, col 9");
}
