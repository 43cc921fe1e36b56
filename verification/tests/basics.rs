//! Text, paths, dates, maps, orders and the configuration document.

use fissile::budget::{Severity, Unit};
use fissile::config::config_document::{parse, Document, DocumentOutput, DocumentRule};
use fissile::config::{
    default_success, default_true, Color, ConfigError, Exceptions, Format, Scan, Stale, Tokens,
    UnitSpec,
};
use fissile::history::calendar::{civil_from_days, utc_date};
use fissile::order::{compare_lists, compare_texts, Order};
use fissile::path_start::PathStyle;
use fissile::paths::{
    file_name_of, join_path, names_of, only_down, parent_of, path_after, start_alike,
};
use fissile::text::{parse_i64, parse_u64, split_lines, split_words, trimmed};
use fissile::text_map::TextMap;

#[test]
fn dates_are_utc() {
    assert_eq!(utc_date(0), "1970-01-01T00:00:00Z");
    assert_eq!(utc_date(-1), "1969-12-31T23:59:59Z");
    assert_eq!(utc_date(951_782_400), "2000-02-29T00:00:00Z");
    assert_eq!(utc_date(1_709_251_199), "2024-02-29T23:59:59Z");
    assert_eq!(utc_date(4_107_542_400), "2100-03-01T00:00:00Z");
    assert_eq!(utc_date(-62_135_596_800), "0001-01-01T00:00:00Z");
    assert_eq!(utc_date(253_402_300_800), "10000-01-01T00:00:00Z");
}

#[test]
fn days_have_dates() {
    assert_eq!(civil_from_days(0), (1970, 1, 1));
    assert_eq!(civil_from_days(-719_468), (0, 3, 1));
    assert_eq!(civil_from_days(19_782), (2024, 2, 29));
    assert_eq!(civil_from_days(47_540), (2100, 2, 28));
}

#[test]
fn paths_are_taken_apart() {
    let unix = PathStyle::Unix;
    assert_eq!(parent_of(unix, "a/b.rs"), Some("a".to_owned()));
    assert_eq!(parent_of(unix, "b.rs"), Some(String::new()));
    assert_eq!(parent_of(unix, ""), None);
    assert_eq!(parent_of(unix, "/"), None);
    assert_eq!(parent_of(unix, "."), Some(String::new()));
    assert_eq!(parent_of(unix, "a/b/"), Some("a".to_owned()));
    assert_eq!(parent_of(unix, "a\\b"), Some(String::new()));
    assert_eq!(file_name_of(unix, "a/b.rs"), Some("b.rs".to_owned()));
    assert_eq!(file_name_of(unix, "a/b/"), Some("b".to_owned()));
    assert_eq!(file_name_of(unix, "a/.."), None);
    assert_eq!(file_name_of(unix, "a\\b"), Some("a\\b".to_owned()));
    assert_eq!(names_of(unix, "/a//b/./c"), ["a", "b", "c"]);
    assert_eq!(names_of(unix, "./a/../b"), ["a", "..", "b"]);
    assert_eq!(names_of(unix, "a\\b"), ["a\\b"]);
    assert_eq!(names_of(unix, "//server/share"), ["server", "share"]);
    assert!(start_alike(unix, "/a", "//b/c"));
    assert!(start_alike(unix, "a", "C:b"));
    assert!(!start_alike(unix, "./a", "a"));
    assert!(!start_alike(unix, "/a", "a"));
    assert_eq!(path_after(unix, "/a//b/./c/", 1), "b/./c");
    assert_eq!(path_after(unix, "/a/b", 2), "");
    assert_eq!(path_after(unix, "/./a", 0), "a");
    assert_eq!(join_path(unix, "/r", "a"), "/r/a");
    assert_eq!(join_path(unix, "/r/", "a"), "/r/a");
    assert_eq!(join_path(unix, "", "a"), "a");
    assert!(only_down(unix, "a/b") && only_down(unix, "\\a") && only_down(unix, ""));
    assert!(!only_down(unix, "/a") && !only_down(unix, "./a") && !only_down(unix, "a/.."));
}

#[test]
fn windows_paths_are_taken_apart() {
    let windows = PathStyle::Windows;
    assert_eq!(parent_of(windows, r"a\b.rs"), Some("a".to_owned()));
    assert_eq!(parent_of(windows, r"a/b\c"), Some("a/b".to_owned()));
    assert_eq!(parent_of(windows, r"C:\a"), Some(r"C:\".to_owned()));
    assert_eq!(parent_of(windows, "C:a"), Some("C:".to_owned()));
    assert_eq!(parent_of(windows, r"C:.\a"), Some("C:.".to_owned()));
    for top in [r"C:\", "C:", "C:.", r"\\server\share", r"\\?\C:\", r"\\.\COM1", r"\\?\x"] {
        assert_eq!(parent_of(windows, top), None);
    }
    assert_eq!(parent_of(windows, "."), Some(String::new()));
    assert_eq!(parent_of(windows, r"\\server"), Some(r"\".to_owned()));
    assert_eq!(parent_of(windows, r"\\server\share\a"), Some(r"\\server\share\".to_owned()));
    assert_eq!(parent_of(windows, r"\\?\C:/a/b"), Some(r"\\?\C:/".to_owned()));
    assert_eq!(file_name_of(windows, r"a\b.rs"), Some("b.rs".to_owned()));
    assert_eq!(file_name_of(windows, r"\\?\C:/a/b"), Some("a/b".to_owned()));
    assert_eq!(file_name_of(windows, r"\\?\C:\a\."), None);
    assert_eq!(file_name_of(windows, r"\\server\share"), None);
    assert_eq!(names_of(windows, r"C:\a/b\.\..\c"), ["a", "b", "..", "c"]);
    assert_eq!(names_of(windows, r"\\server\share\a/b"), ["a", "b"]);
    assert_eq!(names_of(windows, r"//server/share/a"), ["a"]);
    assert_eq!(names_of(windows, r"\\server"), ["server"]);
    assert_eq!(names_of(windows, r"\\.\COM1\a"), ["a"]);
    assert_eq!(names_of(windows, r"\\?\UNC\server\share\a\.\b/c"), ["a", ".", "b/c"]);
    assert_eq!(names_of(windows, r"\\?\C:\a"), ["a"]);
    assert_eq!(names_of(windows, r"\\?\C:x\a"), ["a"]);
    assert_eq!(names_of(windows, r"//?/C:\a"), ["a"]);
}

#[test]
fn windows_paths_start_somewhere() {
    let windows = PathStyle::Windows;
    let alike = |a: &str, b: &str| start_alike(windows, a, b);
    assert!(alike(r"C:\a", "c:/b"));
    assert!(alike(r"\\?\C:\a", r"\\?\c:\b"));
    assert!(alike(r"C:.\a", "c:b"));
    assert!(alike(r"\\server\share", "//server/share/a"));
    assert!(alike(r"\\server", r"\a"));
    assert!(alike("1:a", "b"));
    assert!(!alike(r"C:\a", "C:a"));
    assert!(!alike(r"C:\a", r"D:\a"));
    assert!(!alike(r"C:\a", r"\\?\C:\a"));
    assert!(!alike(r"\\server\share\a", r"\\Server\share\a"));
    assert!(!alike(r"\\?\UNC\server\share\a", r"\\server\share\a"));
    assert!(!alike(r"\\.\C:\a", r"\\?\C:\a"));
    assert!(!alike(r"\\?\C:", r"\\?\C:\a"));
    assert_eq!(path_after(windows, r"\\?\C:\work\repo\conf\f.toml", 2), r"conf\f.toml");
    assert_eq!(path_after(windows, r"C:.\a", 0), r".\a");
    assert_eq!(path_after(windows, r"\\server\share\a\b\", 1), "b");
    assert_eq!(join_path(windows, r"C:\r", "a"), r"C:\r\a");
    assert_eq!(join_path(windows, "r/", "a"), "r/a");
    assert_eq!(join_path(windows, "C:", "a"), "C:a");
    assert_eq!(join_path(windows, r"\\?\C:\r\\x", "a/b"), r"\\?\C:\r\x\a\b");
    assert_eq!(join_path(windows, r"\\?\C:", "a"), r"\\?\C:\a");
    assert_eq!(join_path(windows, r"\\?\C:\r", ""), "\\\\?\\C:\\r\\");
}

#[test]
fn text_is_taken_apart() {
    assert_eq!(split_words("  a \t b\u{a0}c\n"), ["a", "b", "c"]);
    assert_eq!(split_lines("a\r\nb\n\nc"), ["a", "b", "", "c"]);
    assert_eq!(split_lines("a\n"), ["a"]);
    assert!(split_lines("").is_empty());
    assert_eq!(trimmed("\n a b \t"), "a b");
    assert_eq!(parse_i64("-12"), Some(-12));
    assert_eq!(parse_i64("+12"), Some(12));
    assert_eq!(parse_i64("-9223372036854775808"), Some(i64::MIN));
    assert_eq!(parse_i64("9223372036854775808"), None);
    assert_eq!(parse_i64(""), None);
    assert_eq!(parse_i64("1x"), None);
    assert_eq!(parse_u64("18446744073709551615"), Some(u64::MAX));
    assert_eq!(parse_u64("-0"), None);
}

#[test]
fn texts_have_an_order() {
    assert_eq!(compare_texts("a", "b"), Order::Before);
    assert_eq!(compare_texts("ab", "a"), Order::After);
    assert_eq!(compare_texts("a", "a"), Order::Same);
    assert_eq!(compare_texts("\u{e9}", "z"), Order::After);
    let list = |items: &[&str]| items.iter().map(|i| (*i).to_owned()).collect::<Vec<String>>();
    assert_eq!(compare_lists(&list(&["a"]), &list(&["a", "b"])), Order::Before);
    assert_eq!(compare_lists(&list(&["b"]), &list(&["a", "b"])), Order::After);
}

#[test]
fn maps_keep_the_last_value() {
    let mut map: TextMap<u64> = TextMap::new();
    map.insert("b".to_owned(), 1);
    map.insert("a".to_owned(), 2);
    map.insert("b".to_owned(), 3);
    assert_eq!(map.len(), 2);
    assert_eq!(map.key_at(0), "a");
    assert_eq!(map.key_at(1), "b");
    assert_eq!(map.get("b"), Some(&3));
    assert_eq!(map.get("c"), None);
    assert!(map.contains("a"));
}

#[test]
fn names_of_units_and_severities() {
    assert_eq!(Unit::Bytes.name(), "bytes");
    assert_eq!(Unit::Lines.name(), "lines");
    assert_eq!(Unit::Tokens.name(), "tokens");
    assert_eq!(Severity::Soft.as_str(), "soft");
    assert_eq!(Severity::Hard.as_str(), "hard");
}

fn limit(value: i64) -> toml::Spanned<toml::Value> {
    toml::Spanned::new(0..1, toml::Value::Integer(value))
}

fn rule(id: &str, unit: UnitSpec, edit_limit: Option<toml::Spanned<toml::Value>>) -> DocumentRule {
    DocumentRule {
        id: id.to_owned(),
        include_paths: vec!["src/**/*.rs".to_owned()],
        exclude: Vec::new(),
        unit,
        soft: Some(2),
        hard: Some(8),
        priority: 3,
        message: Some("split-now".to_owned()),
        soft_message: None,
        hard_message: None,
        count_blank_lines: false,
        count_comment_lines: default_true(),
        soft_edit_limit: edit_limit,
    }
}

#[test]
fn edit_limits_keep_the_order_of_the_rules() {
    let document = Document {
        fissile_config_version: 1,
        scan: Scan { include_paths: Vec::new(), exclude: Vec::new(), respect_gitignore: true },
        output: DocumentOutput::default(),
        exceptions: Exceptions {
            soft_registry: "soft".to_owned(),
            hard_registry: "hard".to_owned(),
            stale: Stale::Warn,
        },
        tokens: Tokens { enabled: false, command: Vec::new() },
        messages: Vec::new(),
        rules: vec![
            rule("duplicate", UnitSpec::Bytes, Some(limit(2))),
            rule("other", UnitSpec::Tokens, None),
            rule("duplicate", UnitSpec::Lines, Some(limit(7))),
        ],
    };
    let (config, limits) = parse(Ok(document)).ok().unwrap();
    let seen: Vec<Option<i64>> = limits
        .iter()
        .map(|l| l.as_ref().and_then(|s| s.get_ref().as_integer()))
        .collect();
    assert_eq!(seen, [Some(2), None, Some(7)]);
    let rules: Vec<(&str, UnitSpec, i32)> =
        config.rules.iter().map(|r| (r.id.as_str(), r.unit, r.priority)).collect();
    assert_eq!(
        rules,
        [
            ("duplicate", UnitSpec::Bytes, 3),
            ("other", UnitSpec::Tokens, 3),
            ("duplicate", UnitSpec::Lines, 3)
        ]
    );
    assert_eq!(config.output.success, default_success());
    assert_eq!(config.output.format, Format::Text);
    assert_eq!(config.output.color, Color::Auto);
}

#[test]
fn a_document_that_was_not_read_is_refused() {
    match parse(Err("expected a table at line 3".to_owned())) {
        Err(ConfigError::Parse { reason }) => assert_eq!(reason, "expected a table at line 3"),
        _ => panic!("not refused"),
    }
}
