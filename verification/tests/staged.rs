//! Soft edit counts on small histories. A little repository answers the
//! questions that the derivation puts, and remembers what it measured.

use std::collections::BTreeMap;

use fissile::budget::{FileMeasurement, LineCounts, Unit};
use fissile::staged_history::changes::{
    changes_args, history_args, parse_changes, parse_commits, parse_contents, parse_header,
    shallow_commits, shallow_file, staged_args, staged_seed, BatchHeader, Change, Commit, Seed, Status, Version,
};
use fissile::staged_history::edits::{Evidence, Progress, SoftEdit};
use fissile::staged_history::evidence::{
    measured_value, Candidate, EdgeAnswer, Known, NameAnswer, VersionAnswer,
};

/// A tree: each path with its blob. The blob's text gives its size: the number
/// before the dash.
type Tree = BTreeMap<String, String>;

struct Node {
    sha: String,
    parents: Vec<String>,
    tree: Tree,
}

/// Commits in the order they were made.
struct Repo {
    nodes: Vec<Node>,
    staged: Vec<Change>,
    shallow: Vec<String>,
    /// Renames that Git finds, by child, new path and old path.
    renames: Vec<(String, String, String)>,
    governed: fn(&str) -> bool,
    unmeasurable: Vec<String>,
}

fn tree(files: &[(&str, &str)]) -> Tree {
    files.iter().map(|(p, b)| ((*p).to_owned(), (*b).to_owned())).collect()
}

fn is_source(path: &str) -> bool {
    path.starts_with("src/") && path.ends_with(".rs")
}

impl Repo {
    fn new() -> Self {
        Repo {
            nodes: Vec::new(),
            staged: Vec::new(),
            shallow: Vec::new(),
            renames: Vec::new(),
            governed: is_source,
            unmeasurable: Vec::new(),
        }
    }

    fn commit(&mut self, sha: &str, parents: &[&str], files: &[(&str, &str)]) {
        self.nodes.push(Node {
            sha: sha.to_owned(),
            parents: parents.iter().map(|p| (*p).to_owned()).collect(),
            tree: tree(files),
        });
    }

    fn node(&self, sha: &str) -> &Node {
        self.nodes.iter().find(|n| n.sha == sha).unwrap()
    }

    fn diff(&self, child: &str, parent: &str) -> Vec<Change> {
        let new = &self.node(child).tree;
        let old = &self.node(parent).tree;
        let mut changes = Vec::new();
        for (path, blob) in new {
            let moved = self.renames.iter().find(|r| r.0 == child && r.1 == *path);
            match (old.get(path), moved) {
                (Some(before), _) => {
                    if before != blob {
                        changes.push(change(Status::Modified, before, path, path));
                    }
                }
                (None, Some((_, _, from))) => {
                    changes.push(change(Status::Renamed, &old[from], from, path));
                }
                (None, None) => changes.push(change(Status::Added, "0000", path, path)),
            }
        }
        for (path, blob) in old {
            if !new.contains_key(path) {
                changes.push(change(Status::Deleted, blob, path, path));
            }
        }
        changes
    }

    fn measure(&self, version: &Version) -> Option<FileMeasurement> {
        if self.unmeasurable.contains(&version.blob) {
            return None;
        }
        let size: u64 = version.blob.split('-').next().unwrap().parse().unwrap();
        Some(FileMeasurement {
            bytes: size * 10,
            lines: Some(LineCounts {
                physical: size,
                non_blank: size,
                non_comment: size,
                non_blank_non_comment: size,
            }),
            tokens: Some(size),
        })
    }

    fn evidence(&self) -> Evidence {
        Evidence {
            staged: Some(
                self.staged
                    .iter()
                    .map(|c| change(c.status, &c.old_blob, &c.old_path, &c.new_path))
                    .collect(),
            ),
            shallow_listed: true,
            known: Known {
                commits: self
                    .nodes
                    .iter()
                    .rev()
                    .map(|n| Commit { sha: n.sha.clone(), parents: n.parents.clone() })
                    .collect(),
                shallow: self.shallow.clone(),
                edges: Vec::new(),
                names: Vec::new(),
                versions: Vec::new(),
            },
        }
    }

    /// Answers every question, each once, and gives the records and what was
    /// measured.
    fn run(&self, candidates: Vec<Candidate>) -> (Vec<SoftEdit>, Vec<String>) {
        let mut evidence = self.evidence();
        let mut measured = Vec::new();
        for _ in 0..100 {
            match fissile::staged_history::edits::derive(&candidates, &evidence) {
                Progress::Settled(edits) => return (edits, measured),
                Progress::Open(questions) => {
                    for name in questions.names {
                        assert!(!evidence
                            .known
                            .names
                            .iter()
                            .any(|n| n.candidate == name.candidate && n.path == name.path));
                        let governed = Some((self.governed)(&name.path));
                        evidence.known.names.push(NameAnswer {
                            candidate: name.candidate,
                            path: name.path,
                            governed,
                        });
                    }
                    for version in questions.versions {
                        assert!(!evidence.known.versions.iter().any(|v| {
                            v.version.path == version.path && v.version.blob == version.blob
                        }));
                        measured.push(version.blob.clone());
                        let measurement = self.measure(&version);
                        evidence.known.versions.push(VersionAnswer { version, measurement });
                    }
                    for edge in questions.edges {
                        assert!(!evidence
                            .known
                            .edges
                            .iter()
                            .any(|e| e.child == edge.child && e.parent == edge.parent));
                        let changes = Some(self.diff(&edge.child, &edge.parent));
                        evidence.known.edges.push(EdgeAnswer {
                            child: edge.child,
                            parent: edge.parent,
                            changes,
                        });
                    }
                }
            }
        }
        panic!("the derivation does not settle");
    }

    fn one(&self, candidate: Candidate) -> SoftEdit {
        self.run(vec![candidate]).0.remove(0)
    }
}

fn change(status: Status, old_blob: &str, old_path: &str, new_path: &str) -> Change {
    Change {
        status,
        old_blob: old_blob.to_owned(),
        old_path: old_path.to_owned(),
        new_path: new_path.to_owned(),
    }
}

fn candidate(soft_limit: u64, edit_limit: u64) -> Candidate {
    Candidate {
        path: "src/debt.rs".to_owned(),
        rule_id: "rust".to_owned(),
        unit: Unit::Lines,
        soft_limit,
        edit_limit,
        count_blank_lines: false,
        count_comment_lines: true,
    }
}

const DEBT: &str = "src/debt.rs";

#[test]
fn counts_promote_and_reset() {
    let mut repo = Repo::new();
    repo.commit("c2", &[], &[(DEBT, "2-at")]);
    repo.staged = vec![change(Status::Modified, "2-at", DEBT, DEBT)];
    let first = repo.one(candidate(2, 5));
    assert_eq!((first.count, first.limit, first.history_complete), (1, 5, true));
    assert!(!first.promoted());
    assert_eq!(first.path, DEBT);
    assert_eq!(first.rule_id, "rust");
    assert_eq!(first.unit, Unit::Lines);

    for size in 3..=5 {
        let blob = format!("{size}-over");
        let sha = format!("c{size}");
        let parent = format!("c{}", size - 1);
        repo.commit(&sha, &[parent.as_str()], &[(DEBT, blob.as_str())]);
    }
    repo.staged = vec![change(Status::Modified, "5-over", DEBT, DEBT)];
    let fourth = repo.one(candidate(2, 5));
    assert_eq!(fourth.count, 4);
    assert!(!fourth.promoted());

    repo.commit("c6", &["c5"], &[(DEBT, "6-over")]);
    repo.staged = vec![change(Status::Modified, "6-over", DEBT, DEBT)];
    let fifth = repo.one(candidate(2, 5));
    assert_eq!((fifth.count, fifth.history_complete), (5, true));
    assert!(fifth.promoted());

    repo.commit("c7", &["c6"], &[(DEBT, "7-over")]);
    repo.commit("c8", &["c7"], &[(DEBT, "2-shrunk")]);
    repo.staged = vec![change(Status::Modified, "2-shrunk", DEBT, DEBT)];
    let again = repo.one(candidate(2, 5));
    assert_eq!((again.count, again.history_complete), (1, true));
}

#[test]
fn commits_that_do_not_edit_the_file_do_not_count() {
    let mut repo = Repo::new();
    repo.commit("a", &[], &[(DEBT, "2-at")]);
    repo.commit("b", &["a"], &[(DEBT, "3-over")]);
    repo.commit("c", &["b"], &[(DEBT, "3-over"), ("other", "1-x")]);
    repo.commit("d", &["c"], &[(DEBT, "3-over"), ("other", "1-y")]);
    repo.staged = vec![change(Status::Modified, "3-over", DEBT, DEBT)];
    let edit = repo.one(candidate(2, 2));
    assert_eq!((edit.count, edit.history_complete), (2, true));
    assert!(edit.promoted());
}

#[test]
fn a_first_commit_over_soft_counts_and_closes() {
    let mut repo = Repo::new();
    repo.commit("a", &[], &[(DEBT, "3-over")]);
    repo.staged = vec![change(Status::Modified, "3-over", DEBT, DEBT)];
    let edit = repo.one(candidate(2, 5));
    assert_eq!((edit.count, edit.history_complete), (2, true));
}

#[test]
fn a_new_file_and_a_copy_are_at_their_first_edit() {
    for status in [Status::Added, Status::Copied] {
        let mut repo = Repo::new();
        repo.commit("a", &[], &[("src/other.rs", "9-over")]);
        repo.staged = vec![change(status, "9-over", "src/other.rs", DEBT)];
        let (edits, measured) = repo.run(vec![candidate(2, 1)]);
        assert_eq!((edits[0].count, edits[0].history_complete), (1, true));
        assert!(edits[0].promoted());
        assert!(measured.is_empty());
    }
}

#[test]
fn rename_into_scope_starts_the_governed_count_at_one() {
    let mut repo = Repo::new();
    let outside = "notes/debt.txt";
    repo.commit("one", &[], &[(outside, "4-outside1")]);
    repo.commit("two", &["one"], &[(outside, "4-outside2")]);
    repo.commit("three", &["two"], &[(outside, "4-outside3")]);
    repo.commit("four", &["three"], &[(outside, "4-outside4")]);
    repo.staged = vec![change(Status::Renamed, "4-outside4", outside, DEBT)];
    let (edits, measured) = repo.run(vec![candidate(2, 3)]);
    assert_eq!((edits[0].count, edits[0].limit, edits[0].history_complete), (1, 3, true));
    assert!(measured.is_empty());
    // Once committed, the rename is the first governed edit.
    repo.commit("five", &["four"], &[(DEBT, "4-outside4")]);
    repo.renames.push(("five".to_owned(), DEBT.to_owned(), outside.to_owned()));
    repo.staged = vec![change(Status::Modified, "4-outside4", DEBT, DEBT)];
    let edit = repo.one(candidate(2, 3));
    assert_eq!((edit.count, edit.history_complete), (2, true));
}

#[test]
fn a_rename_within_scope_is_followed() {
    let mut repo = Repo::new();
    let old = "src/old.rs";
    repo.commit("one", &[], &[(old, "2-at")]);
    repo.commit("two", &["one"], &[(old, "3-over")]);
    repo.commit("three", &["two"], &[(DEBT, "3-over")]);
    repo.renames.push(("three".to_owned(), DEBT.to_owned(), old.to_owned()));
    repo.staged = vec![change(Status::Modified, "3-over", DEBT, DEBT)];
    let edit = repo.one(candidate(2, 9));
    assert_eq!((edit.count, edit.history_complete), (3, true));
}

#[test]
fn merged_branch_edits_count_without_counting_the_importing_merge() {
    let mut repo = Repo::new();
    repo.commit("base", &[], &[(DEBT, "2-at")]);
    repo.commit("s3", &["base"], &[(DEBT, "3-side")]);
    repo.commit("s4", &["s3"], &[(DEBT, "4-side")]);
    repo.commit("s5", &["s4"], &[(DEBT, "5-side")]);
    repo.commit("main", &["base"], &[(DEBT, "2-at"), ("unrelated.txt", "1-main")]);
    repo.commit("merge", &["main", "s5"], &[(DEBT, "5-side"), ("unrelated.txt", "1-main")]);
    repo.staged = vec![change(Status::Modified, "5-side", DEBT, DEBT)];
    let edit = repo.one(candidate(2, 4));
    assert_eq!((edit.count, edit.limit, edit.history_complete), (4, 4, true));
    assert!(edit.promoted());
}

#[test]
fn a_merge_resolution_distinct_from_both_parents_counts_once() {
    let mut repo = Repo::new();
    repo.commit("base", &[], &[(DEBT, "10-at")]);
    repo.commit("side", &["base"], &[(DEBT, "11-side")]);
    repo.commit("main", &["base"], &[(DEBT, "11-main")]);
    repo.commit("merge", &["main", "side"], &[(DEBT, "12-both")]);
    repo.staged = vec![change(Status::Modified, "12-both", DEBT, DEBT)];
    let edit = repo.one(candidate(10, 4));
    assert_eq!((edit.count, edit.history_complete), (4, true));
    assert!(edit.promoted());
}

#[test]
fn parallel_reset_frontiers_close_independently() {
    let mut repo = Repo::new();
    repo.commit("base", &[], &[(DEBT, "10-at")]);
    repo.commit("side", &["base"], &[(DEBT, "10-side")]);
    repo.commit("main", &["base"], &[(DEBT, "10-main")]);
    repo.commit("merge", &["main", "side"], &[(DEBT, "11-crossing")]);
    repo.staged = vec![change(Status::Modified, "11-crossing", DEBT, DEBT)];
    let (edits, measured) = repo.run(vec![candidate(10, 2)]);
    assert_eq!((edits[0].count, edits[0].history_complete), (2, true));
    assert!(edits[0].promoted());
    assert_eq!(measured, ["11-crossing", "10-main", "10-side"]);
}

#[test]
fn one_open_line_keeps_the_history_incomplete() {
    let mut repo = Repo::new();
    repo.commit("cut", &[], &[(DEBT, "11-old")]);
    repo.commit("side", &["cut"], &[(DEBT, "11-side")]);
    repo.commit("main", &["cut"], &[(DEBT, "10-main")]);
    repo.commit("merge", &["main", "side"], &[(DEBT, "12-both")]);
    repo.shallow.push("cut".to_owned());
    repo.staged = vec![change(Status::Modified, "12-both", DEBT, DEBT)];
    let edit = repo.one(candidate(10, 2));
    assert_eq!((edit.count, edit.history_complete), (3, false));
    assert!(!edit.promoted());
}

#[test]
fn a_shallow_head_proves_only_the_staged_edit() {
    let mut repo = Repo::new();
    repo.commit("tip", &[], &[(DEBT, "7-over")]);
    repo.shallow.push("tip".to_owned());
    repo.staged = vec![change(Status::Modified, "7-over", DEBT, DEBT)];
    let (edits, measured) = repo.run(vec![candidate(2, 1)]);
    assert_eq!((edits[0].count, edits[0].history_complete), (1, false));
    assert!(!edits[0].promoted());
    assert!(measured.is_empty());
}

#[test]
fn token_history_stops_measuring_at_the_recent_reset() {
    let mut repo = Repo::new();
    let mut parent: Option<String> = None;
    for edit in 1..=10 {
        let sha = format!("old{edit}");
        let blob = format!("5-old{edit}");
        let parents: Vec<&str> = parent.iter().map(|p| p.as_str()).collect();
        repo.commit(&sha, &parents, &[(DEBT, blob.as_str())]);
        parent = Some(sha);
    }
    repo.commit("reset", &["old10"], &[(DEBT, "1-reset")]);
    repo.commit("crossing", &["reset"], &[(DEBT, "4-crossing")]);
    repo.staged = vec![change(Status::Modified, "4-crossing", DEBT, DEBT)];
    let mut tokens = candidate(2, 5);
    tokens.unit = Unit::Tokens;
    let (edits, measured) = repo.run(vec![tokens]);
    assert_eq!((edits[0].count, edits[0].limit, edits[0].history_complete), (2, 5, true));
    assert_eq!(measured, ["4-crossing", "1-reset"]);
}

#[test]
fn duplicate_rule_ids_keep_declaration_edit_limits() {
    let mut repo = Repo::new();
    repo.commit("a", &[], &[(DEBT, "3-over")]);
    repo.staged = vec![change(Status::Modified, "3-over", DEBT, DEBT)];
    let mut bytes = candidate(2, 2);
    bytes.rule_id = "duplicate".to_owned();
    bytes.unit = Unit::Bytes;
    let mut lines = candidate(2, 7);
    lines.rule_id = "duplicate".to_owned();
    let edits = repo.run(vec![bytes, lines]).0;
    assert_eq!((edits[0].count, edits[0].limit), (2, 2));
    assert!(edits[0].promoted());
    assert_eq!((edits[1].count, edits[1].limit), (2, 7));
    assert!(!edits[1].promoted());
}

#[test]
fn candidates_do_not_depend_on_one_another() {
    let mut repo = Repo::new();
    repo.commit("a", &[], &[(DEBT, "3-over"), ("src/other.rs", "1-low")]);
    repo.commit("b", &["a"], &[(DEBT, "4-over"), ("src/other.rs", "9-high")]);
    repo.staged = vec![
        change(Status::Modified, "4-over", DEBT, DEBT),
        change(Status::Modified, "9-high", "src/other.rs", "src/other.rs"),
    ];
    let other = || {
        let mut other = candidate(2, 5);
        other.path = "src/other.rs".to_owned();
        other
    };
    let seen = |edit: &SoftEdit| (edit.path.clone(), edit.count, edit.history_complete);
    let alone = seen(&repo.one(candidate(2, 5)));
    assert_eq!(alone, (DEBT.to_owned(), 3, true));
    let first = repo.run(vec![candidate(2, 5), other()]).0;
    let last = repo.run(vec![other(), candidate(2, 5)]).0;
    assert_eq!(seen(&first[0]), alone);
    assert_eq!(seen(&last[1]), alone);
    assert_eq!(seen(&first[1]), ("src/other.rs".to_owned(), 2, true));
    assert_eq!(seen(&last[0]), seen(&first[1]));
}

#[test]
fn what_cannot_be_measured_proves_nothing() {
    let mut repo = Repo::new();
    repo.commit("a", &[], &[(DEBT, "2-at")]);
    repo.commit("b", &["a"], &[(DEBT, "3-lost")]);
    repo.commit("c", &["b"], &[(DEBT, "4-over")]);
    repo.unmeasurable.push("3-lost".to_owned());
    repo.staged = vec![change(Status::Modified, "4-over", DEBT, DEBT)];
    let edit = repo.one(candidate(2, 1));
    assert_eq!((edit.count, edit.history_complete), (2, false));
    assert!(!edit.promoted());
}

#[test]
fn unavailable_evidence_fails_open() {
    let mut repo = Repo::new();
    repo.commit("a", &[], &[(DEBT, "3-over")]);
    repo.staged = vec![change(Status::Modified, "3-over", DEBT, DEBT)];
    let settle = |evidence: &Evidence| {
        match fissile::staged_history::edits::derive(&vec![candidate(2, 1)], evidence) {
            Progress::Settled(mut edits) => edits.remove(0),
            Progress::Open(_) => panic!("a question is left"),
        }
    };
    let mut evidence = repo.evidence();
    evidence.staged = None;
    assert_eq!((settle(&evidence).count, settle(&evidence).history_complete), (1, false));
    let mut evidence = repo.evidence();
    evidence.shallow_listed = false;
    assert!(!settle(&evidence).history_complete);
    let mut evidence = repo.evidence();
    evidence.known.commits.clear();
    assert!(!settle(&evidence).history_complete);
    let mut evidence = repo.evidence();
    evidence.staged = Some(Vec::new());
    assert!(!settle(&evidence).history_complete);
    let mut evidence = repo.evidence();
    evidence.known.names.push(NameAnswer {
        candidate: 0,
        path: DEBT.to_owned(),
        governed: None,
    });
    assert!(!settle(&evidence).history_complete);
    let none: Vec<Candidate> = Vec::new();
    match fissile::staged_history::edits::derive(&none, &repo.evidence()) {
        Progress::Settled(edits) => assert!(edits.is_empty()),
        Progress::Open(_) => panic!("a question is left"),
    }
}

#[test]
fn lost_changes_prove_nothing() {
    let mut repo = Repo::new();
    repo.commit("a", &[], &[(DEBT, "2-at")]);
    repo.commit("b", &["a"], &[(DEBT, "3-over")]);
    repo.staged = vec![change(Status::Modified, "3-over", DEBT, DEBT)];
    let mut evidence = repo.evidence();
    evidence.known.names.push(NameAnswer {
        candidate: 0,
        path: DEBT.to_owned(),
        governed: Some(true),
    });
    let version = Version { path: DEBT.to_owned(), blob: "3-over".to_owned() };
    let measurement = repo.measure(&version);
    evidence.known.versions.push(VersionAnswer { version, measurement });
    evidence.known.edges.push(EdgeAnswer {
        child: "b".to_owned(),
        parent: "a".to_owned(),
        changes: None,
    });
    match fissile::staged_history::edits::derive(&vec![candidate(2, 1)], &evidence) {
        Progress::Settled(edits) => {
            assert_eq!((edits[0].count, edits[0].history_complete), (1, false));
        }
        Progress::Open(_) => panic!("a question is left"),
    }
}

#[test]
fn a_backslash_path_is_found() {
    let mut repo = Repo::new();
    repo.commit("a", &[], &[(DEBT, "2-at")]);
    repo.staged = vec![change(Status::Modified, "2-at", DEBT, DEBT)];
    let mut windows = candidate(2, 5);
    windows.path = "src\\debt.rs".to_owned();
    let edit = repo.one(windows);
    assert_eq!((edit.count, edit.history_complete), (1, true));
    assert_eq!(edit.path, "src\\debt.rs");
}

#[test]
fn values_follow_the_unit_and_the_line_policy() {
    let measurement = FileMeasurement {
        bytes: 100,
        lines: Some(LineCounts {
            physical: 10,
            non_blank: 8,
            non_comment: 7,
            non_blank_non_comment: 5,
        }),
        tokens: None,
    };
    let mut c = candidate(0, 1);
    assert_eq!(measured_value(&c, &measurement), Some(8));
    c.count_blank_lines = true;
    assert_eq!(measured_value(&c, &measurement), Some(10));
    c.count_comment_lines = false;
    assert_eq!(measured_value(&c, &measurement), Some(7));
    c.count_blank_lines = false;
    assert_eq!(measured_value(&c, &measurement), Some(5));
    c.unit = Unit::Bytes;
    assert_eq!(measured_value(&c, &measurement), Some(100));
    c.unit = Unit::Tokens;
    assert_eq!(measured_value(&c, &measurement), None);
}

// ---------------------------------------------------------------------------
// Git's answers
// ---------------------------------------------------------------------------

fn raw(fields: &[&str]) -> Vec<u8> {
    let mut out = Vec::new();
    for field in fields {
        out.extend_from_slice(field.as_bytes());
        out.push(0);
    }
    out
}

#[test]
fn raw_changes_are_read() {
    let (changes, whole) = parse_changes(&raw(&[
        ":100644 100644 aaaa bbbb M",
        "src/a b.rs",
        ":100644 100644 cccc dddd R080",
        "old.rs",
        "new.rs",
        ":000000 100644 0000 eeee A",
        "added.rs",
        ":100644 100644 ffff ffff C100",
        "from.rs",
        "to.rs",
        ":100644 000000 abab 0000 D",
        "gone.rs",
        ":100644 120000 cdcd efef T",
        "typed.rs",
    ]));
    assert!(whole);
    let seen: Vec<(Status, &str, &str, &str)> = changes
        .iter()
        .map(|c| (c.status, c.old_blob.as_str(), c.old_path.as_str(), c.new_path.as_str()))
        .collect();
    assert_eq!(
        seen,
        [
            (Status::Modified, "aaaa", "src/a b.rs", "src/a b.rs"),
            (Status::Renamed, "cccc", "old.rs", "new.rs"),
            (Status::Added, "0000", "added.rs", "added.rs"),
            (Status::Copied, "ffff", "from.rs", "to.rs"),
            (Status::Deleted, "abab", "gone.rs", "gone.rs"),
            (Status::Other, "cdcd", "typed.rs", "typed.rs"),
        ]
    );
    match staged_seed(&changes, "new.rs") {
        Some(Seed::Version(version)) => {
            assert_eq!((version.path.as_str(), version.blob.as_str()), ("old.rs", "cccc"));
        }
        _ => panic!("a rename has a predecessor"),
    }
    assert!(matches!(staged_seed(&changes, "to.rs"), Some(Seed::Absent)));
    assert!(matches!(staged_seed(&changes, "added.rs"), Some(Seed::Absent)));
    assert!(staged_seed(&changes, "gone.rs").is_none());
    assert!(staged_seed(&changes, "typed.rs").is_none());
}

#[test]
fn broken_listings_are_read_as_far_as_they_go() {
    let (changes, whole) =
        parse_changes(&raw(&[":100644 100644 aaaa bbbb M", "a.rs", ":100644 100644 c d R100", "x"]));
    assert_eq!((changes.len(), whole), (1, false));
    let (changes, whole) = parse_changes(&raw(&["no colon", "a.rs"]));
    assert_eq!((changes.len(), whole), (0, false));
    let (changes, whole) = parse_changes(&raw(&[":100644 aaaa M", "a.rs"]));
    assert_eq!((changes.len(), whole), (0, false));
    let (changes, whole) = parse_changes(&Vec::new());
    assert_eq!((changes.len(), whole), (0, true));
}

#[test]
fn the_last_word_on_a_path_counts() {
    let changes = vec![
        change(Status::Modified, "aaaa", "a.rs", "a.rs"),
        change(Status::Added, "0000", "a.rs", "a.rs"),
        change(Status::Deleted, "bbbb", "a.rs", "a.rs"),
    ];
    assert!(matches!(staged_seed(&changes, "a.rs"), Some(Seed::Absent)));
}

#[test]
fn commits_and_boundaries_are_read() {
    let commits = parse_commits(&b"c b a\nb a\na\n".to_vec());
    let seen: Vec<(&str, usize)> =
        commits.iter().map(|c| (c.sha.as_str(), c.parents.len())).collect();
    assert_eq!(seen, [("c", 2), ("b", 1), ("a", 0)]);
    assert_eq!(commits[0].parents, ["b", "a"]);
    assert_eq!(shallow_commits(Some("one\ntwo\n".to_owned())), ["one", "two"]);
    assert!(shallow_commits(None).is_empty());
    assert_eq!(shallow_file(&b"/repo/.git/shallow\n".to_vec()), "/repo/.git/shallow");
}

#[test]
fn object_headers_are_read() {
    assert_eq!(parse_header("abc blob 12\n"), BatchHeader::Size(12));
    assert_eq!(parse_header("abc blob +7\n"), BatchHeader::Size(7));
    assert_eq!(parse_header("abc missing\n"), BatchHeader::Missing);
    assert_eq!(parse_header("abc blob missing\n"), BatchHeader::Missing);
    assert_eq!(parse_header("abc\n"), BatchHeader::Missing);
    assert_eq!(parse_header("abc blob twelve\n"), BatchHeader::Invalid);
    assert_eq!(parse_header("abc blob -1\n"), BatchHeader::Invalid);
    assert_eq!(parse_header("abc blob 18446744073709551616\n"), BatchHeader::Invalid);
}

#[test]
fn objects_answer_their_requests() {
    let reply = b"aa blob 3\nx\ny\nbb missing\ncc blob 0\n\ndd blob 2\nzz\n".to_vec();
    let all = [Some(b"x\ny".to_vec()), None, Some(Vec::new()), Some(b"zz".to_vec())];
    assert_eq!(parse_contents(&reply, 4), Some(all.to_vec()));
    assert_eq!(parse_contents(&reply, 2), Some(all[..2].to_vec()));
    // What the reader did not come to has no content.
    let mut longer = all.to_vec();
    longer.push(None);
    longer.push(None);
    assert_eq!(parse_contents(&reply, 6), Some(longer));
    assert_eq!(parse_contents(&Vec::new(), 2), Some(vec![None, None]));
    assert_eq!(parse_contents(&b"aa missing".to_vec(), 1), Some(vec![None]));
    assert_eq!(parse_contents(&b"anything".to_vec(), 0), Some(Vec::new()));
    // A reply that breaks off or cannot be read answers nothing.
    for broken in [
        &b"aa missing\nbb blob 3\nxy"[..],
        &b"aa missing\nbb blob 3\nxyz"[..],
        &b"aa missing\nbb blob three\nxyz\n"[..],
        &b"aa missing\nb\xff blob 3\nxyz\n"[..],
    ] {
        assert_eq!(parse_contents(&broken.to_vec(), 1), Some(vec![None]));
        assert_eq!(parse_contents(&broken.to_vec(), 2), None);
    }
}

#[test]
fn questions_to_git_are_plain() {
    assert_eq!(
        staged_args(),
        [
            "diff",
            "--cached",
            "--raw",
            "-z",
            "--no-abbrev",
            "--find-renames",
            "--diff-filter=ACMR"
        ]
    );
    assert_eq!(history_args(), ["rev-list", "--topo-order", "--parents", "HEAD", "--"]);
    assert_eq!(
        changes_args("p", "c"),
        ["diff-tree", "-r", "-M", "--raw", "-z", "--no-abbrev", "p", "c", "--"]
    );
}
