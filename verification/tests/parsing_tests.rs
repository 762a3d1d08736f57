use localizable::parsing::{extract_keys, parse_localizable_line, parse_localizable_lines};

fn lines_of(lines: &[&str]) -> Vec<String> {
    lines.iter().map(|l| String::from(*l)).collect()
}

#[test]
fn strict_line_with_value_parses() {
    let m = parse_localizable_line("  \"greeting\" = \"Hello\";", false).unwrap();
    assert_eq!(m.key, "greeting");
    assert_eq!(m.value, "Hello");
}

#[test]
fn strict_line_rejects_empty_value() {
    assert!(parse_localizable_line("\"empty\" = \"\";", false).is_none());
}

#[test]
fn permissive_line_accepts_empty_value() {
    let m = parse_localizable_line("\"empty\" = \"\";", true).unwrap();
    assert_eq!(m.key, "empty");
    assert_eq!(m.value, "");
}

#[test]
fn key_extractor_sees_placeholder_keys() {
    let keys = extract_keys(&lines_of(&["\"empty\" = \"\";"]));
    assert_eq!(keys, vec![String::from("empty")]);
}

#[test]
fn line_without_semicolon_is_skipped() {
    assert!(parse_localizable_line("\"a\" = \"b\"", false).is_none());
    assert!(parse_localizable_line("// a comment", true).is_none());
    assert!(parse_localizable_line("", true).is_none());
}

#[test]
fn empty_key_is_rejected() {
    assert!(parse_localizable_line("\"\" = \"b\";", true).is_none());
}

#[test]
fn trailing_text_after_semicolon_is_tolerated() {
    let m = parse_localizable_line("\"a\" = \"b\"; // note", false).unwrap();
    assert_eq!(m.key, "a");
    assert_eq!(m.value, "b");
}

#[test]
fn whole_file_parses_in_order_skipping_bad_lines() {
    let lines = lines_of(&[
        "/* header */",
        "\"b\" = \"2\";",
        "not a line",
        "\"a\" = \"1\";",
        "\"p\" = \"\";",
    ]);
    let entries = parse_localizable_lines(&lines);
    let pairs: Vec<(String, String)> =
        entries.into_iter().map(|m| (m.key, m.value)).collect();
    assert_eq!(
        pairs,
        vec![
            (String::from("b"), String::from("2")),
            (String::from("a"), String::from("1"))
        ]
    );
}

#[test]
fn extract_keys_deduplicates_in_first_seen_order() {
    let lines = lines_of(&[
        "\"b\" = \"2\";",
        "\"a\" = \"1\";",
        "\"b\" = \"other\";",
    ]);
    let keys = extract_keys(&lines);
    assert_eq!(keys, vec![String::from("b"), String::from("a")]);
}
