use workshop_cleaner::parse::parse_config;
use workshop_cleaner::resolve::SchemaError;
use workshop_cleaner::resolve::resolve_library_roots;
use workshop_cleaner::tree::ConfigNode;
use workshop_cleaner::unescape::unescape;

fn chars(s: &str) -> Vec<char> {
    s.chars().collect()
}

fn text_of(v: &Vec<char>) -> String {
    v.iter().collect()
}

fn scalar(s: &str) -> ConfigNode {
    ConfigNode::Scalar(chars(s))
}

fn object(entries: Vec<(&str, ConfigNode)>) -> ConfigNode {
    ConfigNode::Object(entries.into_iter().map(|(k, v)| (chars(k), v)).collect())
}

fn resolve_text(text: &str, install: &str) -> Result<Vec<String>, SchemaError> {
    let doc = parse_config(&chars(text)).expect("the text should parse");
    resolve_library_roots(&doc, &chars(install)).map(|roots| roots.iter().map(text_of).collect())
}

#[test]
fn two_entries_resolve_to_default_and_both_paths() {
    let text = "\"libraryfolders\"\n{\n\t\"0\"\n\t{\n\t\t\"path\" \"D:\\\\LibA\"\n\t\t\"label\" \"\"\n\t}\n\t\"1\"\n\t{\n\t\t\"path\" \"E:\\\\LibB\"\n\t}\n}\n";
    let got = resolve_text(text, "C:\\Steam").unwrap();
    let mut sorted = got.clone();
    sorted.sort();
    let mut want = vec![
        "C:\\Steam/steamapps/workshop".to_string(),
        "D:\\LibA".to_string(),
        "E:\\LibB".to_string(),
    ];
    want.sort();
    assert_eq!(sorted, want);
    // The implicit default root is present regardless of the entries.
    assert_eq!(got[0], "C:\\Steam/steamapps/workshop");
    assert_eq!(got.len(), 3);
}

#[test]
fn empty_text_resolves_to_the_default_alone() {
    let got = resolve_text("", "C:\\Steam").unwrap();
    assert_eq!(got, vec!["C:\\Steam/steamapps/workshop".to_string()]);
}

#[test]
fn entry_count_plus_one_roots_for_well_formed_configs() {
    for n in 0..5 {
        let mut text = String::from("\"libraryfolders\" {");
        for k in 0..n {
            text.push_str(&format!(" \"{}\" {{ \"path\" \"P{}\" }}", k, k));
        }
        text.push_str(" }");
        let got = resolve_text(&text, "R").unwrap();
        assert_eq!(got.len(), n + 1);
    }
}

#[test]
fn entry_without_path_is_a_schema_error() {
    let text = "\"libraryfolders\" { \"0\" { \"path\" \"D:\\\\LibA\" } \"1\" { \"label\" \"no path here\" } }";
    let got = resolve_text(text, "R");
    assert_eq!(got, Err(SchemaError::MissingPath));
}

#[test]
fn scalar_root_is_a_schema_error() {
    let got = resolve_library_roots(&scalar("oops"), &chars("R"));
    assert_eq!(got, Err(SchemaError::NotAnObject));
}

#[test]
fn scalar_libraries_value_is_a_schema_error() {
    let got = resolve_text("\"libraryfolders\" \"oops\"", "R");
    assert_eq!(got, Err(SchemaError::LibrariesNotAnObject));
}

#[test]
fn scalar_entry_is_a_schema_error() {
    let got = resolve_text("\"libraryfolders\" { \"0\" \"oops\" }", "R");
    assert_eq!(got, Err(SchemaError::EntryNotAnObject));
}

#[test]
fn object_path_value_is_a_schema_error() {
    let got = resolve_text("\"libraryfolders\" { \"0\" { \"path\" { } } }", "R");
    assert_eq!(got, Err(SchemaError::PathNotText));
}

#[test]
fn missing_libraries_key_registers_no_entries() {
    let got = resolve_text("\"other\" { }", "R").unwrap();
    assert_eq!(got, vec!["R/steamapps/workshop".to_string()]);
}

#[test]
fn first_path_field_of_an_entry_wins() {
    let got = resolve_text(
        "\"libraryfolders\" { \"0\" { \"path\" \"A\" \"path\" \"B\" } }",
        "R",
    )
    .unwrap();
    assert_eq!(got, vec!["R/steamapps/workshop".to_string(), "A".to_string()]);
}

#[test]
fn unescapes_escaped_backslashes_in_paths() {
    let raw = chars("C:\\\\Games\\\\Lib");
    let got = text_of(&unescape(&raw));
    assert_eq!(got, "C:\\Games\\Lib");
}

#[test]
fn unescapes_quotes_and_control_escapes() {
    assert_eq!(text_of(&unescape(&chars("a\\\"b"))), "a\"b");
    assert_eq!(text_of(&unescape(&chars("a\\nb"))), "a\nb");
    assert_eq!(text_of(&unescape(&chars("a\\tb"))), "a\tb");
    assert_eq!(text_of(&unescape(&chars("a\\rb"))), "a\rb");
    assert_eq!(text_of(&unescape(&chars("plain"))), "plain");
    assert_eq!(text_of(&unescape(&chars(""))), "");
}

#[test]
fn resolved_path_comes_from_the_config_unescaped() {
    // A wrong resolver that handed the raw text back would keep the
    // doubled backslash.
    let got = resolve_text(
        "\"libraryfolders\" { \"0\" { \"path\" \"D:\\\\Lib\\\\Games\" } }",
        "R",
    )
    .unwrap();
    assert_eq!(got[1], "D:\\Lib\\Games");
}
