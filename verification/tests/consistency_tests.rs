use localizable::consistency::{check_keys_consistency, FileRead, LocalizableFile, ResultCheckKeys};

fn file_with_lines(path: &str, lines: &[&str]) -> LocalizableFile {
    LocalizableFile {
        path: String::from(path),
        read: FileRead::Lines(lines.iter().map(|l| String::from(*l)).collect()),
    }
}

fn failed_file(path: &str, err: &str) -> LocalizableFile {
    LocalizableFile { path: String::from(path), read: FileRead::Failed(String::from(err)) }
}

fn missing_by_path(d: &[localizable::consistency::Discrepancy], path: &str) -> Vec<String> {
    let mut found = None;
    for entry in d {
        if entry.path == path {
            found = Some(entry.missing_keys.clone());
        }
    }
    found.expect("path not reported")
}

#[test]
fn identical_key_sets_are_consistent() {
    let a = file_with_lines("/en.lproj/T.strings", &["\"x\" = \"1\";", "\"y\" = \"2\";"]);
    let b = file_with_lines("/ru.lproj/T.strings", &["\"y\" = \"b\";", "\"x\" = \"a\";"]);
    match check_keys_consistency(&vec![a, b]) {
        ResultCheckKeys::Equatable() => {}
        _ => panic!("Expected Equatable"),
    }
}

#[test]
fn missing_key_is_reported_per_file() {
    let a = file_with_lines("/a", &["\"x\" = \"1\";", "\"y\" = \"2\";"]);
    let b = file_with_lines("/b", &["\"x\" = \"1\";"]);
    match check_keys_consistency(&vec![a, b]) {
        ResultCheckKeys::NonEquatable(d) => {
            assert_eq!(d.len(), 2);
            assert_eq!(missing_by_path(&d, "/a"), Vec::<String>::new());
            assert_eq!(missing_by_path(&d, "/b"), vec![String::from("y")]);
        }
        _ => panic!("Expected NonEquatable"),
    }
}

#[test]
fn file_order_does_not_change_the_verdict() {
    let a = || file_with_lines("/a", &["\"x\" = \"1\";", "\"y\" = \"2\";"]);
    let b = || file_with_lines("/b", &["\"y\" = \"1\";"]);
    let c = || file_with_lines("/c", &["\"x\" = \"1\";", "\"y\" = \"2\";"]);
    let r1 = check_keys_consistency(&vec![a(), b(), c()]);
    let r2 = check_keys_consistency(&vec![c(), a(), b()]);
    match (r1, r2) {
        (ResultCheckKeys::NonEquatable(d1), ResultCheckKeys::NonEquatable(d2)) => {
            for path in ["/a", "/b", "/c"] {
                let mut m1 = missing_by_path(&d1, path);
                let mut m2 = missing_by_path(&d2, path);
                m1.sort();
                m2.sort();
                assert_eq!(m1, m2);
            }
            assert_eq!(missing_by_path(&d1, "/b"), vec![String::from("x")]);
        }
        _ => panic!("Expected NonEquatable both ways"),
    }
}

#[test]
fn failed_read_reports_first_error() {
    let a = file_with_lines("/a", &["\"x\" = \"1\";"]);
    let b = failed_file("/b", "permission denied");
    let c = failed_file("/c", "not found");
    match check_keys_consistency(&vec![a, b, c]) {
        ResultCheckKeys::Error(msg) => {
            assert_eq!(msg, "Error reading file \"/b\": permission denied");
        }
        _ => panic!("Expected Error"),
    }
}

#[test]
fn empty_group_is_consistent() {
    match check_keys_consistency(&vec![]) {
        ResultCheckKeys::Equatable() => {}
        _ => panic!("Expected Equatable"),
    }
}

#[test]
fn placeholder_keys_count_for_consistency() {
    let a = file_with_lines("/a", &["\"x\" = \"1\";"]);
    let b = file_with_lines("/b", &["\"x\" = \"\";"]);
    match check_keys_consistency(&vec![a, b]) {
        ResultCheckKeys::Equatable() => {}
        _ => panic!("Expected Equatable"),
    }
}
