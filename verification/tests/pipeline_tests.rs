use localizable::consistency::{check_keys_consistency, FileRead, LocalizableFile, ResultCheckKeys};
use localizable::grouping::{group_files_by_logical_group_and_language, GroupedFiles};
use localizable::inject::{append_missing_keys, render_missing_keys};
use localizable::localizable_model::LocalizableModel;
use localizable::reformat::reformat_localizable_lines;
use localizable::swiftgen::generate_swift_content;
use localizable::walker::{walk_files, FsNode};

fn lines_of(lines: &[&str]) -> Vec<String> {
    lines.iter().map(|l| String::from(*l)).collect()
}

fn strings_of(items: &[&str]) -> Vec<String> {
    items.iter().map(|s| String::from(*s)).collect()
}

fn lookup<'a>(g: &'a GroupedFiles, key: &str, lang: &str) -> Option<&'a str> {
    let mut r = None;
    for group in &g.groups {
        if group.key == key {
            for lf in &group.files {
                if lf.language == lang {
                    r = Some(lf.path.as_str());
                }
            }
        }
    }
    r
}

#[test]
fn grouping_collects_languages_of_one_group() {
    let files = strings_of(&[
        "/proj/en.lproj/Localizable.strings",
        "/proj/ru.lproj/Localizable.strings",
        "/proj/readme.md",
    ]);
    let grouped = group_files_by_logical_group_and_language(files);
    assert_eq!(grouped.groups.len(), 1);
    assert_eq!(grouped.groups[0].files.len(), 2);
    assert_eq!(
        lookup(&grouped, "/proj/Localizable", "en"),
        Some("/proj/en.lproj/Localizable.strings")
    );
    assert_eq!(
        lookup(&grouped, "/proj/Localizable", "ru"),
        Some("/proj/ru.lproj/Localizable.strings")
    );
}

#[test]
fn grouping_later_path_wins_for_same_group_and_language() {
    let files = strings_of(&[
        "/first/en.lproj/T.strings",
        "/second/en.lproj/T.strings",
        "/other/en.lproj/T.strings",
    ]);
    let grouped = group_files_by_logical_group_and_language(files);
    assert_eq!(lookup(&grouped, "/first/T", "en"), Some("/first/en.lproj/T.strings"));
    assert_eq!(lookup(&grouped, "/second/T", "en"), Some("/second/en.lproj/T.strings"));
    let twice = strings_of(&["/p/en.lproj/T.strings", "/p/en.lproj/T.strings"]);
    let grouped2 = group_files_by_logical_group_and_language(twice);
    assert_eq!(grouped2.groups.len(), 1);
    assert_eq!(grouped2.groups[0].files.len(), 1);
}

#[test]
fn injector_renders_one_placeholder_line_per_key() {
    let block = render_missing_keys(&strings_of(&["k1", "k2"]));
    assert_eq!(block, "\"k1\" = \"\";\n\"k2\" = \"\";\n");
}

#[test]
fn injector_appends_without_altering_prior_content() {
    let content = "/* head */\n\"a\" = \"1\";\n";
    let out = append_missing_keys(content, &strings_of(&["b"]));
    assert_eq!(out, "/* head */\n\"a\" = \"1\";\n\"b\" = \"\";\n");
    assert!(out.starts_with(content));
}

#[test]
fn swift_property_renders_the_key_twice() {
    let m = LocalizableModel { key: String::from("title"), value: String::from("Home") };
    assert_eq!(
        m.to_swift_property(),
        "public static let title: NSLocalizedString = .init(\"title\", comment: .empty)"
    );
}

#[test]
fn swift_file_holds_one_declaration_per_entry() {
    let entries = vec![LocalizableModel {
        key: String::from("title"),
        value: String::from("Home"),
    }];
    let content = generate_swift_content(&entries);
    assert_eq!(
        content,
        "\nimport Foundation\n\npublic enum Title {\n    public static let title: \
         NSLocalizedString = .init(\"title\", comment: .empty)\n}\n"
    );
}

#[test]
fn reformat_sorts_valued_lines_and_groups_placeholders() {
    let lines = lines_of(&[
        "/* header comment */",
        "",
        "\"b\" = \"2\";",
        "\"missing\" = \"\";",
        "dropped junk",
        "\"a\" = \"1\";",
    ]);
    let out = reformat_localizable_lines(&lines);
    assert_eq!(
        out,
        lines_of(&[
            "/* header comment */",
            "",
            "",
            "\"missing\" = \"\";",
            "",
            "\"a\" = \"1\";",
            "\"b\" = \"2\";",
        ])
    );
}

#[test]
fn walker_filters_by_extension_and_skips_excluded_dirs() {
    let tree = vec![
        FsNode::File { name: String::from("Localizable.strings") },
        FsNode::File { name: String::from("notes.txt") },
        FsNode::Dir {
            name: String::from("Vendored.framework"),
            entries: vec![FsNode::Dir {
                name: String::from("deep"),
                entries: vec![FsNode::File { name: String::from("Hidden.strings") }],
            }],
        },
        FsNode::Dir {
            name: String::from("en.lproj"),
            entries: vec![
                FsNode::File { name: String::from("App.strings") },
                FsNode::Dir {
                    name: String::from("Vendored.framework"),
                    entries: vec![FsNode::File { name: String::from("Nested.strings") }],
                },
            ],
        },
    ];
    let found = walk_files(
        &tree,
        "/root",
        &strings_of(&["strings"]),
        &strings_of(&["Vendored.framework"]),
    );
    assert_eq!(
        found,
        lines_of(&["/root/Localizable.strings", "/root/en.lproj/App.strings"])
    );
}

#[test]
fn walker_does_not_filter_directories_by_extension() {
    let tree = vec![FsNode::Dir {
        name: String::from("dir.strings"),
        entries: vec![FsNode::File { name: String::from("inner.strings") }],
    }];
    let found = walk_files(&tree, "/r", &strings_of(&["strings"]), &strings_of(&[]));
    assert_eq!(found, lines_of(&["/r/dir.strings/inner.strings"]));
}

#[test]
fn end_to_end_missing_key_is_found_and_rendered() {
    let en_path = "/proj/en.lproj/Localizable.strings";
    let ru_path = "/proj/ru.lproj/Localizable.strings";
    let grouped = group_files_by_logical_group_and_language(strings_of(&[en_path, ru_path]));
    assert_eq!(grouped.groups.len(), 1);
    assert_eq!(grouped.groups[0].key, "/proj/Localizable");
    assert_eq!(grouped.groups[0].files.len(), 2);

    let en = LocalizableFile {
        path: String::from(en_path),
        read: FileRead::Lines(lines_of(&["\"a\" = \"1\";", "\"b\" = \"2\";"])),
    };
    let ru = LocalizableFile {
        path: String::from(ru_path),
        read: FileRead::Lines(lines_of(&["\"a\" = \"1\";"])),
    };
    match check_keys_consistency(&vec![en, ru]) {
        ResultCheckKeys::NonEquatable(d) => {
            let mut ru_missing = None;
            for entry in &d {
                if entry.path == ru_path {
                    ru_missing = Some(entry.missing_keys.clone());
                }
            }
            let ru_missing = ru_missing.expect("ru file not reported");
            assert_eq!(ru_missing, vec![String::from("b")]);
            let block = render_missing_keys(&ru_missing);
            assert_eq!(block, "\"b\" = \"\";\n");
        }
        _ => panic!("Expected NonEquatable"),
    }
}
