use workshop_cleaner::parse::ParseError;
use workshop_cleaner::parse::parse_config;
use workshop_cleaner::tree::ConfigNode;

fn chars(s: &str) -> Vec<char> {
    s.chars().collect()
}

fn scalar(s: &str) -> ConfigNode {
    ConfigNode::Scalar(chars(s))
}

fn object(entries: Vec<(&str, ConfigNode)>) -> ConfigNode {
    ConfigNode::Object(entries.into_iter().map(|(k, v)| (chars(k), v)).collect())
}

#[test]
fn parses_one_pair() {
    let got = parse_config(&chars("\"name\" \"value\"")).unwrap();
    assert_eq!(got, object(vec![("name", scalar("value"))]));
}

#[test]
fn parses_empty_text_to_empty_object() {
    let got = parse_config(&chars("")).unwrap();
    assert_eq!(got, object(vec![]));
}

#[test]
fn parses_whitespace_only_text_to_empty_object() {
    let got = parse_config(&chars(" \t\r\n ")).unwrap();
    assert_eq!(got, object(vec![]));
}

#[test]
fn parses_nested_objects() {
    let text = "\"libraryfolders\"\n{\n\t\"0\"\n\t{\n\t\t\"path\" \"D:\\\\Lib\"\n\t}\n}";
    let got = parse_config(&chars(text)).unwrap();
    let want = object(vec![(
        "libraryfolders",
        object(vec![("0", object(vec![("path", scalar("D:\\\\Lib"))]))]),
    )]);
    assert_eq!(got, want);
}

#[test]
fn keeps_duplicate_keys_in_order() {
    let got = parse_config(&chars("\"k\" \"1\" \"k\" \"2\"")).unwrap();
    assert_eq!(got, object(vec![("k", scalar("1")), ("k", scalar("2"))]));
}

#[test]
fn keeps_escapes_raw_in_scalars() {
    let got = parse_config(&chars("\"k\" \"a\\\"b\\\\c\"")).unwrap();
    assert_eq!(got, object(vec![("k", scalar("a\\\"b\\\\c"))]));
}

#[test]
fn empty_object_value() {
    let got = parse_config(&chars("\"k\" { }")).unwrap();
    assert_eq!(got, object(vec![("k", object(vec![]))]));
}

#[test]
fn unterminated_string_is_a_parse_error() {
    let got = parse_config(&chars("\"key\" \"valu"));
    assert_eq!(got, Err(ParseError::UnterminatedString));
}

#[test]
fn unterminated_string_in_key_position() {
    let got = parse_config(&chars("\"key"));
    assert_eq!(got, Err(ParseError::UnterminatedString));
}

#[test]
fn invalid_escape_is_a_parse_error() {
    let got = parse_config(&chars("\"k\" \"a\\qb\""));
    assert_eq!(got, Err(ParseError::InvalidEscape));
}

#[test]
fn missing_value_is_a_parse_error() {
    let got = parse_config(&chars("\"k\""));
    assert_eq!(got, Err(ParseError::MissingValue));
}

#[test]
fn value_cut_off_by_close_brace_is_a_parse_error() {
    let got = parse_config(&chars("\"o\" { \"k\" }"));
    assert_eq!(got, Err(ParseError::MissingValue));
}

#[test]
fn unclosed_brace_is_a_parse_error() {
    let got = parse_config(&chars("\"o\" { \"k\" \"v\""));
    assert_eq!(got, Err(ParseError::UnclosedBrace));
}

#[test]
fn stray_close_brace_is_a_parse_error() {
    let got = parse_config(&chars("\"k\" \"v\" }"));
    assert_eq!(got, Err(ParseError::StrayClose));
}

#[test]
fn bare_word_is_a_parse_error() {
    let got = parse_config(&chars("key \"v\""));
    assert_eq!(got, Err(ParseError::UnexpectedCharacter));
}

#[test]
fn unterminated_value_after_a_complete_key_is_a_parse_error() {
    let got = parse_config(&chars("\"path\" \"C:"));
    assert_eq!(got, Err(ParseError::UnterminatedString));
}
