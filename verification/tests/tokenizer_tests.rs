use flow_parser::errors::FlowParseError;
use flow_parser::tokenizer::separate_prefix;

#[test]
fn trailing_delimiter_is_optional() {
    let with = separate_prefix("A01|x|y|").unwrap();
    let without = separate_prefix("A01|x|y").unwrap();
    assert_eq!(with, without);
    assert_eq!(with.0, "A01");
    assert_eq!(with.1, vec!["x".to_string(), "y".to_string()]);
}

#[test]
fn empty_fields_are_preserved() {
    let (prefix, contents) = separate_prefix("A01||y|").unwrap();
    assert_eq!(prefix, "A01");
    assert_eq!(contents, vec!["".to_string(), "y".to_string()]);
}

#[test]
fn line_without_delimiter_is_malformed() {
    let result = separate_prefix("A01");
    assert_eq!(result, Err(FlowParseError::MalformedLine("A01".to_string())));
}

#[test]
fn lone_trailing_delimiter_is_malformed() {
    // Stripping the single trailing delimiter leaves no delimiter at all.
    let result = separate_prefix("A01|");
    assert_eq!(result, Err(FlowParseError::MalformedLine("A01|".to_string())));
}

#[test]
fn empty_line_is_malformed() {
    let result = separate_prefix("");
    assert_eq!(result, Err(FlowParseError::MalformedLine("".to_string())));
}

#[test]
fn empty_prefix_is_kept() {
    let (prefix, contents) = separate_prefix("|x").unwrap();
    assert_eq!(prefix, "");
    assert_eq!(contents, vec!["x".to_string()]);
}

#[test]
fn only_one_trailing_delimiter_is_stripped() {
    let (prefix, contents) = separate_prefix("A01|x||").unwrap();
    assert_eq!(prefix, "A01");
    assert_eq!(contents, vec!["x".to_string(), "".to_string()]);
}

#[test]
fn single_field_line_tokenizes() {
    let (prefix, contents) = separate_prefix("Z09|only").unwrap();
    assert_eq!(prefix, "Z09");
    assert_eq!(contents, vec!["only".to_string()]);
}

#[test]
fn non_ascii_field_values_survive() {
    let (prefix, contents) = separate_prefix("A01|héllo|wörld|").unwrap();
    assert_eq!(prefix, "A01");
    assert_eq!(contents, vec!["héllo".to_string(), "wörld".to_string()]);
}
