use localizable::classify::parse_key_and_language;
use localizable::consistency::{check_keys_consistency, FileRead, LocalizableFile, ResultCheckKeys};

fn file_with_lines(path: &str, lines: &[&str]) -> LocalizableFile {
    LocalizableFile {
        path: String::from(path),
        read: FileRead::Lines(lines.iter().map(|l| String::from(*l)).collect()),
    }
}

#[test]
fn test_consistent_keys() {
    let en = file_with_lines("/en.lproj/Localizable.strings", &[]);
    let ru = file_with_lines("/ru.lproj/Localizable.strings", &[]);
    let nl = file_with_lines("/nl.lproj/Localizable.strings", &[]);
    let files = vec![en, ru, nl];
    let result = check_keys_consistency(&files);
    match result {
        ResultCheckKeys::Equatable() => assert!(true),
        _ => assert!(false, "Expected Equatable"),
    }
}

#[test]
fn test_empty_path() {
    assert_eq!(parse_key_and_language(""), None);
}

#[test]
fn test_no_strings() {
    let path = "/path/to/project/Supporting Files/en.lproj/";
    assert_eq!(parse_key_and_language(path), None);
}

#[test]
fn test_no_lproj() {
    let path = "/path/to/project/Supporting Files/Localizable.strings";
    assert_eq!(parse_key_and_language(path), None);
}

#[test]
fn test_multiple_lproj() {
    let path = "/path/to/project/Supporting Files/en.lproj/subdir/ru.lproj/Localizable.strings";
    assert_eq!(
        parse_key_and_language(path),
        Some((
            String::from("/path/to/project/Supporting Files/en.lproj/subdir/Localizable"),
            String::from("ru")
        ))
    );
}

#[test]
fn test_valid_path() {
    let path = "/path/to/project/Supporting Files/en.lproj/Localizable.strings";
    assert_eq!(
        parse_key_and_language(path),
        Some((
            String::from("/path/to/project/Supporting Files/Localizable"),
            String::from("en")
        ))
    );
}

#[test]
fn test_valid_with_empty_tail() {
    let path = "/en.lproj/Localizable.strings";
    assert_eq!(
        parse_key_and_language(path),
        Some((String::from("/Localizable"), String::from("en")))
    );
}
