//! The report as text and as JSON.

use fissile::history::data::{
    Address, Ceiling, CeilingChange, DeferredAge, FindingAddress, FindingAge, FindingState,
    MovementKind, Renamed,
};
use fissile::history::report::History;
use fissile::json::Json;

fn address(severity: &str, registry: &str, path: &str) -> Address {
    Address {
        severity: severity.to_owned(),
        registry: registry.to_owned(),
        path: path.to_owned(),
        match_kind: "exact".to_owned(),
        unit: "lines".to_owned(),
        rules: vec!["rust".to_owned()],
    }
}

const SOFT: &str = "docs/file-size-agent-exceptions.toml";
const HARD: &str = "docs/file-size-human-exceptions.toml";

fn history() -> History {
    History {
        from: "aaa".to_owned(),
        to: "bbb".to_owned(),
        added: vec![Ceiling { address: address("soft", SOFT, "src/new.rs"), value: 600 }],
        retired: vec![Ceiling { address: address("soft", SOFT, "src/old.rs"), value: 500 }],
        raised: vec![CeilingChange {
            address: address("soft", SOFT, "src/growing.rs"),
            old_value: 500,
            new_value: 700,
        }],
        lowered: vec![CeilingChange {
            address: address("hard", HARD, "src/shrinking.rs"),
            old_value: 900,
            new_value: 700,
        }],
        renamed: vec![Renamed {
            kind: MovementKind::ExactFile,
            old: address("soft", SOFT, "src/before.rs"),
            new: address("soft", SOFT, "src/after.rs"),
        }],
        deferred_ages: vec![DeferredAge {
            entry: Ceiling { address: address("soft", SOFT, "src/new.rs"), value: 600 },
            first_seen_commit: "ccc".to_owned(),
            first_seen_date: "2026-09-01T12:00:00Z".to_owned(),
            age_days: 9,
        }],
        soft_finding_ages: vec![FindingAge {
            finding: FindingState {
                address: FindingAddress {
                    path: "src/standing.rs".to_owned(),
                    rule: "rust".to_owned(),
                    unit: "lines".to_owned(),
                },
                actual: 420,
                limit: 350,
            },
            first_seen_commit: "ddd".to_owned(),
            first_seen_date: "2026-08-01T12:00:00Z".to_owned(),
            age_days: 40,
        }],
    }
}

#[test]
fn text_has_one_line_per_record() {
    let expected = [
        "history aaa..bbb:",
        "  exceptions: +1 -1; ceilings: 1 raised, 1 lowered; renames: 1",
        "  added: soft docs/file-size-agent-exceptions.toml: src/new.rs [match=exact; rules=rust; unit=lines] = 600",
        "  retired: soft docs/file-size-agent-exceptions.toml: src/old.rs [match=exact; rules=rust; unit=lines] = 500",
        "  raised: soft docs/file-size-agent-exceptions.toml: src/growing.rs [match=exact; rules=rust; unit=lines] 500 -> 700",
        "  lowered: hard docs/file-size-human-exceptions.toml: src/shrinking.rs [match=exact; rules=rust; unit=lines] 900 -> 700",
        "  renamed: exact-file soft docs/file-size-agent-exceptions.toml: src/before.rs -> src/after.rs [match=exact; rules=rust; unit=lines]",
        "  deferred age: soft docs/file-size-agent-exceptions.toml: src/new.rs [match=exact; rules=rust; unit=lines] = 600; first ccc 2026-09-01T12:00:00Z; 9 days",
        "  soft finding age: src/standing.rs [rule=rust; unit=lines] 420 > 350; first ddd 2026-08-01T12:00:00Z; 40 days",
    ];
    let text = history().render_text();
    let lines: Vec<&str> = text.lines().collect();
    assert_eq!(lines, expected);
}

fn names(json: &Json) -> Vec<&'static str> {
    match json {
        Json::Object(fields) => fields.iter().map(|f| f.0).collect(),
        _ => panic!("no object"),
    }
}

fn field<'a>(json: &'a Json, name: &str) -> &'a Json {
    match json {
        Json::Object(fields) => &fields.iter().find(|f| f.0 == name).unwrap().1,
        _ => panic!("no object"),
    }
}

fn items(json: &Json) -> &Vec<Json> {
    match json {
        Json::Array(items) => items,
        _ => panic!("no array"),
    }
}

fn text(json: &Json) -> &str {
    match json {
        Json::Str(text) => text,
        _ => panic!("no text"),
    }
}

fn number(json: &Json) -> u64 {
    match json {
        Json::UInt(n) => *n,
        _ => panic!("no number"),
    }
}

#[test]
fn json_keeps_its_order_and_its_counts() {
    let history = history();
    let json = history.json();
    let arrays = [
        "added",
        "retired",
        "raised",
        "lowered",
        "renamed",
        "deferred_ages",
        "soft_finding_ages",
    ];
    let mut expected = vec!["from", "to", "counts"];
    expected.extend(arrays);
    assert_eq!(names(&json), expected);
    let counts = field(&json, "counts");
    assert_eq!(names(counts), arrays);
    assert_eq!(names(&history.counts_json()), arrays);
    for array in arrays {
        assert_eq!(number(field(counts, array)), items(field(&json, array)).len() as u64);
    }
    let added = &items(field(&json, "added"))[0];
    assert_eq!(
        names(added),
        ["registry", "severity", "path", "match", "rules", "unit", "value"]
    );
    assert_eq!(text(field(added, "path")), "src/new.rs");
    assert_eq!(number(field(added, "value")), 600);
    assert_eq!(text(&items(field(added, "rules"))[0]), "rust");
    let raised = &items(field(&json, "raised"))[0];
    assert_eq!(number(field(raised, "old_value")), 500);
    assert_eq!(number(field(raised, "new_value")), 700);
    let renamed = &items(field(&json, "renamed"))[0];
    assert_eq!(text(field(renamed, "kind")), "exact-file");
    assert_eq!(text(field(field(renamed, "old"), "path")), "src/before.rs");
    assert_eq!(text(field(field(renamed, "new"), "path")), "src/after.rs");
    let age = &items(field(&json, "deferred_ages"))[0];
    assert_eq!(text(field(age, "first_seen_commit")), "ccc");
    assert_eq!(text(field(age, "first_seen_date")), "2026-09-01T12:00:00Z");
    assert_eq!(number(field(age, "age_days")), 9);
    let finding = &items(field(&json, "soft_finding_ages"))[0];
    assert_eq!(text(field(finding, "severity")), "soft");
    assert_eq!(text(field(finding, "rule")), "rust");
    assert_eq!(number(field(finding, "actual")), 420);
    assert_eq!(number(field(finding, "limit")), 350);
}

#[test]
fn empty_arrays_are_present() {
    let empty = History {
        from: "a".to_owned(),
        to: "a".to_owned(),
        added: Vec::new(),
        retired: Vec::new(),
        raised: Vec::new(),
        lowered: Vec::new(),
        renamed: Vec::new(),
        deferred_ages: Vec::new(),
        soft_finding_ages: Vec::new(),
    };
    let json = empty.json();
    assert!(items(field(&json, "added")).is_empty());
    assert!(items(field(&json, "soft_finding_ages")).is_empty());
    assert_eq!(number(field(field(&json, "counts"), "renamed")), 0);
}

#[test]
fn names_of_movements() {
    assert_eq!(MovementKind::ExactFile.name(), "exact-file");
    assert_eq!(MovementKind::Directory.name(), "directory");
}
