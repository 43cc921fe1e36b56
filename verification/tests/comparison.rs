//! Comparisons of committed states, on small histories.

use fissile::budget::{Budget, Rule, RuleHit, Severity, Unit};
use fissile::cli::Loaded;
use fissile::config::{
    Color, Config, Exceptions, Format, Output, RuleSpec, Scan, Stale, Tokens, UnitSpec,
};
use fissile::budget::Checker;
use fissile::exceptions::{Exception, Kind, MatchKind, Registries, Verdict};
use fissile::history::ages::age_days;
use fissile::history::compare::{classify, evaluate, from_index};
use fissile::history::data::{
    Address, Ceiling, EntryState, FindingAddress, FindingState, MovementKind, Snapshot,
};
use fissile::history::error::HistoryError;
use fissile::history::eval::{snapshot, FileOutcome, Judged, Scanned};
use fissile::history::evidence::{directory_mapping_is_proven, refine_exception_renames};
use fissile::history::git::{GitOutput, Rename, RenameKind, Repository, Revision};
use fissile::history::identity::{replacement, Transition};
use fissile::history::movement::movement;
use fissile::history::report::History;
use fissile::history::transitions::{edges, transitions, Link, Transitions};
use fissile::path_start::PathStyle;
use fissile::text_map::TextMap;

const SOFT: &str = "docs/file-size-agent-exceptions.toml";

fn address(path: &str) -> Address {
    Address {
        severity: "soft".to_owned(),
        registry: SOFT.to_owned(),
        path: path.to_owned(),
        match_kind: "exact".to_owned(),
        unit: "lines".to_owned(),
        rules: vec!["source".to_owned()],
    }
}

fn entry(path: &str, value: u64) -> EntryState {
    EntryState { address: address(path), value, kind: Kind::Deferred }
}

fn finding(path: &str) -> FindingState {
    FindingState {
        address: FindingAddress {
            path: path.to_owned(),
            rule: "source".to_owned(),
            unit: "lines".to_owned(),
        },
        actual: 2,
        limit: 1,
    }
}

/// Midnight of a day of 2024, in seconds.
fn day(month: u64, day: u64) -> i64 {
    let before = [0, 31, 60, 91, 121, 152, 182, 213];
    let days = 19723 + before[(month - 1) as usize] + (day - 1);
    (days * 86_400) as i64
}

fn commit(sha: &str, parents: &[&str], timestamp: i64) -> Snapshot {
    Snapshot {
        sha: sha.to_owned(),
        parents: parents.iter().map(|p| (*p).to_owned()).collect(),
        timestamp,
        date: fissile::history::calendar::utc_date(timestamp),
        entries: Vec::new(),
        findings: Vec::new(),
        blobs: TextMap::new(),
        config_paths: Vec::new(),
    }
}

fn with_blobs(mut snapshot: Snapshot, blobs: &[(&str, &str)]) -> Snapshot {
    for (path, blob) in blobs {
        snapshot.blobs.insert((*path).to_owned(), (*blob).to_owned());
    }
    snapshot
}

fn listing(fields: &[&str]) -> Result<GitOutput, String> {
    let mut stdout = Vec::new();
    for field in fields {
        stdout.extend_from_slice(field.as_bytes());
        stdout.push(0);
    }
    Ok(GitOutput { success: true, stdout })
}

fn repository() -> Repository {
    Repository { range: "base..to".to_owned(), style: PathStyle::Unix }
}

fn report(
    snapshots: &Vec<Snapshot>,
    answers: Vec<Result<GitOutput, String>>,
    from: usize,
) -> Result<History, HistoryError> {
    let repository = repository();
    assert_eq!(edges(snapshots).len(), answers.len());
    let links = transitions(&repository, snapshots, answers)?;
    evaluate(&repository, snapshots, &links, from, Ok(Vec::new()))
}

fn ok(result: Result<History, HistoryError>) -> History {
    match result {
        Ok(history) => history,
        Err(error) => panic!("{}", error.text()),
    }
}

fn refusal<T>(result: Result<T, HistoryError>) -> String {
    match result {
        Ok(_) => panic!("not refused"),
        Err(error) => error.text(),
    }
}

fn paths(list: &[Ceiling]) -> Vec<&str> {
    list.iter().map(|c| c.address.path.as_str()).collect()
}

// ---------------------------------------------------------------------------
// The commit graph
// ---------------------------------------------------------------------------

#[test]
fn second_parent_range_walks_the_commit_dag() {
    let mut base = commit("base", &[], day(3, 1));
    let mut main = commit("main", &["base"], day(3, 2));
    let mut side = commit("side", &["base"], day(3, 3));
    let mut merge = commit("merge", &["main", "side"], day(3, 5));
    for snapshot in [&mut base, &mut main, &mut side, &mut merge] {
        snapshot.findings.push(finding("src/debt.rs"));
    }
    let history = vec![base, main, side, merge];
    let quiet = || listing(&["A", "x.txt"]);
    let history = ok(report(&history, vec![quiet(), quiet(), quiet(), quiet()], 2));
    let text = history.render_text();
    assert!(text.contains("first base 2024-03-01T00:00:00Z; 4 days"), "{text}");
    assert_eq!(history.from, "side");
    assert_eq!(history.to, "merge");
}

#[test]
fn copied_file_is_not_rename_evidence() {
    let mut base = commit("base", &[], day(4, 1));
    base.entries.push(entry("src/original.rs", 3));
    let mut to = commit("to", &["base"], day(4, 3));
    to.entries.push(entry("src/copied.rs", 3));
    let base = with_blobs(base, &[("src/original.rs", "b1")]);
    let to = with_blobs(to, &[("src/original.rs", "b1"), ("src/copied.rs", "b1")]);
    let history = ok(report(
        &vec![base, to],
        vec![listing(&["C100", "src/original.rs", "src/copied.rs", "M", SOFT])],
        0,
    ));
    assert_eq!(paths(&history.added), ["src/copied.rs"]);
    assert_eq!(paths(&history.retired), ["src/original.rs"]);
    assert_eq!(history.renamed.len(), 0);
}

#[test]
fn one_file_move_does_not_rewrite_its_siblings() {
    let mut base = commit("base", &[], day(5, 1));
    base.entries.push(entry(".github/workflows/release.yml", 3));
    base.findings.push(finding(".github/workflows/auto-bump.yml"));
    base.config_paths.push(".github".to_owned());
    let base = with_blobs(
        base,
        &[(".github/workflows/release.yml", "b1"), (".github/workflows/auto-bump.yml", "b1")],
    );
    let mut to = commit("to", &["base"], day(5, 3));
    to.entries.push(entry(".github/moved/release.yml", 3));
    to.findings.push(finding(".github/workflows/auto-bump.yml"));
    to.config_paths.push(".github".to_owned());
    let to = with_blobs(
        to,
        &[(".github/moved/release.yml", "b1"), (".github/workflows/auto-bump.yml", "b1")],
    );
    let history = ok(report(
        &vec![base, to],
        vec![listing(&[
            "R100",
            ".github/workflows/release.yml",
            ".github/moved/release.yml",
        ])],
        0,
    ));
    let text = history.render_text();
    assert!(
        text.contains("renamed: exact-file soft docs/file-size-agent-exceptions.toml: .github/workflows/release.yml -> .github/moved/release.yml"),
        "{text}"
    );
    assert!(!text.contains("renamed: directory"), "{text}");
    assert!(text.contains("soft finding age: .github/workflows/auto-bump.yml [rule=source; unit=lines] 2 > 1; first base 2024-05-01T00:00:00Z; 2 days"), "{text}");
}

#[test]
fn a_shallow_endpoint_cannot_claim_first_appearance() {
    let mut only = commit("tip", &[], day(6, 3));
    only.findings.push(finding("src/debt.rs"));
    let history = vec![only];
    let repository = Repository { range: "HEAD..HEAD".to_owned(), style: PathStyle::Unix };
    let links = transitions(&repository, &history, Vec::new()).ok().unwrap();
    let cut = Ok(vec!["tip".to_owned()]);
    let error = refusal(evaluate(&repository, &history, &links, 0, cut));
    assert_eq!(
        error,
        "history HEAD..HEAD: revision tip: history before the shallow boundary is unavailable"
    );
    let open = evaluate(&repository, &history, &links, 0, Ok(vec!["other".to_owned()]));
    assert!(open.is_ok());
    let unknown = Err(HistoryError::new("HEAD..HEAD", "no boundaries".to_owned()));
    let error = refusal(evaluate(&repository, &history, &links, 0, unknown));
    assert_eq!(error, "history HEAD..HEAD: no boundaries");
}

#[test]
fn merge_age_restarts_when_one_parent_lacks_the_state() {
    let mut base = commit("base", &[], day(6, 1));
    let mut main = commit("main", &["base"], day(6, 2));
    let side = commit("side", &["base"], day(6, 3));
    let mut merge = commit("merge", &["main", "side"], day(6, 5));
    for snapshot in [&mut base, &mut main, &mut merge] {
        snapshot.entries.push(entry("src/deferred.rs", 3));
        snapshot.findings.push(finding("src/finding.rs"));
    }
    let quiet = || listing(&[]);
    let history = ok(report(
        &vec![base, main, side, merge],
        vec![quiet(), quiet(), quiet(), quiet()],
        0,
    ));
    let text = history.render_text();
    assert!(text.contains("deferred age: soft docs/file-size-agent-exceptions.toml: src/deferred.rs [match=exact; rules=source; unit=lines] = 3; first merge 2024-06-05T00:00:00Z; 0 days"), "{text}");
    assert!(text.contains("soft finding age: src/finding.rs [rule=source; unit=lines] 2 > 1; first merge 2024-06-05T00:00:00Z; 0 days"), "{text}");
}

#[test]
fn partial_registry_substitution_does_not_promote_a_directory() {
    let mut base = commit("base", &[], day(8, 1));
    base.entries.push(entry("old/a.rs", 3));
    base.entries.push(entry("old/b.rs", 3));
    base.config_paths.push("old".to_owned());
    base.config_paths.push("old/**/*.rs".to_owned());
    let base = with_blobs(base, &[("old/a.rs", "b1"), ("old/b.rs", "b2")]);
    let mut to = commit("to", &["base"], day(8, 3));
    to.entries.push(entry("new/a.rs", 3));
    to.entries.push(entry("old/b.rs", 3));
    to.config_paths.push("new".to_owned());
    to.config_paths.push("new/**/*.rs".to_owned());
    let to = with_blobs(to, &[("new/a.rs", "b1"), ("new/b.rs", "b2")]);
    let history = ok(report(
        &vec![base, to],
        vec![listing(&["R100", "old/a.rs", "new/a.rs", "R100", "old/b.rs", "new/b.rs"])],
        0,
    ));
    let text = history.render_text();
    assert!(!text.contains("renamed: directory"), "{text}");
    assert!(text.contains("renamed: exact-file soft docs/file-size-agent-exceptions.toml: old/a.rs -> new/a.rs"), "{text}");
    assert!(text.contains("deferred age: soft docs/file-size-agent-exceptions.toml: old/b.rs [match=exact; rules=source; unit=lines] = 3; first base 2024-08-01T00:00:00Z; 2 days"), "{text}");
    assert!(!text.contains("added: soft docs/file-size-agent-exceptions.toml: old/b.rs"));
    assert!(!text.contains("retired: soft docs/file-size-agent-exceptions.toml: old/b.rs"));
}

fn moved_directory(glob: bool) -> Vec<Snapshot> {
    let mut base = commit("base", &[], day(8, 1));
    base.entries.push(entry("old/a.rs", 3));
    base.config_paths.push("old/**/*.rs".to_owned());
    let mut to = commit("to", &["base"], day(8, 3));
    to.entries.push(entry("new/a.rs", 4));
    to.config_paths.push("new/**/*.rs".to_owned());
    if glob {
        for (snapshot, path) in [(&mut base, "old/*.rs"), (&mut to, "new/*.rs")] {
            let mut wide = entry(path, 9);
            wide.address.match_kind = "glob".to_owned();
            snapshot.entries.push(wide);
        }
    }
    vec![with_blobs(base, &[("old/a.rs", "b1")]), with_blobs(to, &[("new/a.rs", "b1")])]
}

#[test]
fn a_proven_directory_carries_files_and_globs() {
    let history =
        ok(report(&moved_directory(true), vec![listing(&["R100", "old/a.rs", "new/a.rs"])], 0));
    assert_eq!(history.renamed.len(), 2);
    for moved in &history.renamed {
        assert_eq!(moved.kind, MovementKind::Directory);
    }
    assert_eq!(history.added.len(), 0);
    assert_eq!(history.retired.len(), 0);
    assert_eq!(history.raised.len(), 1);
    assert_eq!(history.raised[0].old_value, 3);
    assert_eq!(history.raised[0].new_value, 4);
    assert_eq!(history.raised[0].address.path, "new/a.rs");
    assert_eq!(history.deferred_ages.len(), 2);
    assert_eq!(history.deferred_ages[0].first_seen_commit, "base");
    assert_eq!(history.deferred_ages[0].age_days, 2);
}

#[test]
fn a_glob_does_not_move_with_one_file() {
    let mut base = commit("base", &[], day(8, 1));
    let mut to = commit("to", &["base"], day(8, 3));
    for (snapshot, path) in [(&mut base, "old/a.rs"), (&mut to, "new/a.rs")] {
        let mut wide = entry(path, 9);
        wide.address.match_kind = "glob".to_owned();
        snapshot.entries.push(wide);
    }
    let history =
        ok(report(&vec![base, to], vec![listing(&["R100", "old/a.rs", "new/a.rs"])], 0));
    assert_eq!(history.renamed.len(), 0);
    assert_eq!(paths(&history.added), ["new/a.rs"]);
    assert_eq!(paths(&history.retired), ["old/a.rs"]);
}

#[test]
fn a_competing_destination_refutes_a_directory() {
    let history = moved_directory(false);
    let rename = |old: &str, new: &str| Rename {
        old: old.to_owned(),
        new: new.to_owned(),
        kind: RenameKind::ExactFile,
    };
    let lone = vec![rename("old/a.rs", "new/a.rs")];
    assert!(directory_mapping_is_proven(&history[0], &history[1], &lone, "old", "new"));
    let torn = vec![rename("old/a.rs", "new/a.rs"), rename("old/a.rs", "else/a.rs")];
    assert!(!directory_mapping_is_proven(&history[0], &history[1], &torn, "old", "new"));
    let crowded = vec![rename("old/a.rs", "new/a.rs"), rename("lib/a.rs", "new/a.rs")];
    assert!(!directory_mapping_is_proven(&history[0], &history[1], &crowded, "old", "new"));
    let refined = refine_exception_renames(PathStyle::Unix, &history[0], &history[1], torn);
    assert_eq!(refined[0].new, "else/a.rs");
    assert_eq!(refined[0].kind, RenameKind::ExactFile);
    assert_eq!(refined[1].kind, RenameKind::ExactFile);
    let refined = refine_exception_renames(PathStyle::Unix, &history[0], &history[1], lone);
    assert_eq!(refined[0].kind, RenameKind::Directory);
}

#[test]
fn a_change_of_unit_is_no_ceiling_movement() {
    let mut base = commit("base", &[], day(4, 1));
    base.entries.push(entry("src/a.rs", 3));
    let mut to = commit("to", &["base"], day(4, 2));
    let mut changed = entry("src/a.rs", 9);
    changed.address.unit = "bytes".to_owned();
    to.entries.push(changed);
    let history = ok(report(&vec![base, to], vec![listing(&[])], 0));
    assert_eq!(history.raised.len(), 0);
    assert_eq!(history.added.len(), 1);
    assert_eq!(history.retired.len(), 1);
}

#[test]
fn a_commit_compared_with_itself_shows_no_movement() {
    let mut only = commit("to", &[], day(4, 1));
    only.entries.push(entry("src/a.rs", 3));
    only.entries.push(entry("src/b.rs", 4));
    let history = ok(report(&vec![only], Vec::new(), 0));
    let text = history.render_text();
    assert!(
        text.starts_with("history to..to:\n  exceptions: +0 -0; ceilings: 0 raised, 0 lowered; renames: 0\n"),
        "{text}"
    );
    assert_eq!(history.deferred_ages.len(), 2);
}

#[test]
fn an_absent_state_starts_again() {
    let mut one = commit("one", &[], day(1, 1));
    one.entries.push(entry("src/a.rs", 3));
    let two = commit("two", &["one"], day(1, 2));
    let mut three = commit("three", &["two"], day(1, 3));
    three.entries.push(entry("src/a.rs", 5));
    let mut four = commit("four", &["three"], day(1, 5));
    four.entries.push(entry("src/a.rs", 7));
    let quiet = || listing(&[]);
    let history = ok(report(&vec![one, two, three, four], vec![quiet(), quiet(), quiet()], 0));
    assert_eq!(history.deferred_ages[0].first_seen_commit, "three");
    assert_eq!(history.deferred_ages[0].age_days, 2);
    // Through the gap the entry is still the same one.
    assert_eq!(history.raised[0].old_value, 3);
    assert_eq!(history.raised[0].new_value, 7);
}

#[test]
fn only_deferred_entries_have_an_age() {
    let mut only = commit("to", &[], day(4, 1));
    let mut kept = entry("src/a.rs", 3);
    kept.kind = Kind::Permanent;
    only.entries.push(kept);
    let history = ok(report(&vec![only], Vec::new(), 0));
    assert_eq!(history.deferred_ages.len(), 0);
}

#[test]
fn parallel_ages_take_the_latest_of_a_line() {
    // Both parents have the finding; one of the first appearances is an
    // ancestor of the other.
    let base = commit("base", &[], day(2, 1));
    let mut one = commit("one", &["base"], day(2, 2));
    one.findings.push(finding("src/a.rs"));
    let mut two = commit("two", &["one"], day(2, 3));
    two.findings.push(finding("src/a.rs"));
    let mut merge = commit("merge", &["one", "two"], day(2, 4));
    merge.findings.push(finding("src/a.rs"));
    let quiet = || listing(&[]);
    let history =
        ok(report(&vec![base, one, two, merge], vec![quiet(), quiet(), quiet(), quiet()], 0));
    assert_eq!(history.soft_finding_ages[0].first_seen_commit, "one");
    // Unrelated first appearances prove no single one.
    let base = commit("base", &[], day(2, 1));
    let mut one = commit("one", &["base"], day(2, 2));
    one.findings.push(finding("src/a.rs"));
    let mut two = commit("two", &["base"], day(2, 3));
    two.findings.push(finding("src/a.rs"));
    let mut merge = commit("merge", &["one", "two"], day(2, 4));
    merge.findings.push(finding("src/a.rs"));
    let history =
        ok(report(&vec![base, one, two, merge], vec![quiet(), quiet(), quiet(), quiet()], 0));
    assert_eq!(history.soft_finding_ages[0].first_seen_commit, "merge");
}

// ---------------------------------------------------------------------------
// Refusals
// ---------------------------------------------------------------------------

#[test]
fn ambiguous_blobs_are_refused() {
    let mut base = commit("base", &[], day(4, 1));
    base.entries.push(entry("src/one.rs", 3));
    base.entries.push(entry("src/two.rs", 3));
    let base = with_blobs(base, &[("src/one.rs", "b1"), ("src/two.rs", "b1")]);
    let mut to = commit("to", &["base"], day(4, 2));
    to.entries.push(entry("src/moved.rs", 3));
    let to = with_blobs(to, &[("src/moved.rs", "b1")]);
    let error = refusal(report(
        &vec![base, to],
        vec![listing(&["R100", "src/one.rs", "src/moved.rs", "D", "src/two.rs"])],
        0,
    ));
    assert_eq!(
        error,
        "history base..to: revision to: ambiguous rename evidence for src/moved.rs"
    );
}

#[test]
fn unusable_rename_answers_are_refused() {
    let history = || vec![commit("base", &[], day(4, 1)), commit("to", &["base"], day(4, 2))];
    let error = refusal(report(&history(), vec![Err("no git".to_owned())], 0));
    assert_eq!(error, "history base..to: Git is unavailable: no git");
    let failed = Ok(GitOutput { success: false, stdout: Vec::new() });
    let error = refusal(report(&history(), vec![failed], 0));
    assert_eq!(error, "history base..to: revision to: rename evidence is unavailable");
    let error = refusal(report(&history(), vec![listing(&["R100", "src/a.rs"])], 0));
    assert_eq!(error, "history base..to: revision to: Git returned malformed rename evidence");
}

#[test]
fn the_first_unusable_answer_is_refused() {
    let history = vec![
        commit("one", &[], day(4, 1)),
        commit("two", &["one"], day(4, 2)),
        commit("three", &["two"], day(4, 3)),
    ];
    let failed = || Ok(GitOutput { success: false, stdout: Vec::new() });
    let error = refusal(report(&history, vec![failed(), Err("late".to_owned())], 0));
    assert_eq!(error, "history base..to: revision two: rename evidence is unavailable");
}

#[test]
fn an_entry_with_two_places_is_refused() {
    let mut base = commit("base", &[], day(4, 1));
    base.entries.push(entry("src/a.rs", 3));
    let mut left = commit("left", &["base"], day(4, 2));
    left.entries.push(entry("src/b.rs", 3));
    let mut right = commit("right", &["base"], day(4, 2));
    right.entries.push(entry("src/c.rs", 3));
    let mut to = commit("to", &["left", "right"], day(4, 3));
    to.entries.push(entry("src/b.rs", 3));
    to.entries.push(entry("src/c.rs", 3));
    let error = refusal(report(
        &vec![base, left, right, to],
        vec![
            listing(&["R100", "src/a.rs", "src/b.rs"]),
            listing(&["R100", "src/a.rs", "src/c.rs"]),
            listing(&[]),
            listing(&[]),
        ],
        0,
    ));
    assert_eq!(error, "history base..to: ambiguous rename evidence for src/a.rs");
}

#[test]
fn a_later_first_appearance_is_refused() {
    let mut base = commit("base", &[], day(4, 9));
    base.findings.push(finding("src/a.rs"));
    let mut to = commit("to", &["base"], day(4, 2));
    to.findings.push(finding("src/a.rs"));
    let error = refusal(report(&vec![base, to], vec![listing(&[])], 0));
    assert_eq!(error, "history base..to: first-seen timestamp is later than the endpoint");
}

#[test]
fn ages_are_rounded_down() {
    assert_eq!(age_days(10, 10 + 86_400 * 9 + 86_399, "a..b").ok(), Some(9));
    assert_eq!(age_days(10, 10, "a..b").ok(), Some(0));
    assert_eq!(
        refusal(age_days(11, 10, "a..b")),
        "history a..b: first-seen timestamp is later than the endpoint"
    );
    assert!(age_days(i64::MIN, i64::MAX, "a..b").is_err());
}

#[test]
fn the_first_endpoint_has_a_place_in_the_walk() {
    let revision = |sha: &str| Revision { sha: sha.to_owned(), timestamp: 0, parents: Vec::new() };
    let walk = vec![revision("one"), revision("two"), revision("three")];
    assert_eq!(from_index(&repository(), &walk, "two").ok(), Some(1));
    assert_eq!(
        refusal(from_index(&repository(), &walk, "four")),
        "history base..to: comparison ancestry is unavailable"
    );
}

// ---------------------------------------------------------------------------
// Parts
// ---------------------------------------------------------------------------

#[test]
fn prefixes_end_at_a_slash() {
    assert_eq!(replacement("src/old/a.rs", "src/old", "lib"), Some("lib/a.rs".to_owned()));
    assert_eq!(replacement("src/old", "src/old", "lib"), Some("lib".to_owned()));
    assert_eq!(replacement("src/older/a.rs", "src/old", "lib"), None);
    assert_eq!(replacement("src/a.rs", "src/old", "lib"), None);
    let there = replacement("src/old/a.rs", "src/old", "lib").unwrap();
    assert_eq!(replacement(&there, "lib", "src/old"), Some("src/old/a.rs".to_owned()));
}

#[test]
fn the_registry_moves_too() {
    let transition = Transition {
        style: PathStyle::Unix,
        renames: Vec::new(),
        entry_renames: vec![Rename {
            old: SOFT.to_owned(),
            new: "moved.toml".to_owned(),
            kind: RenameKind::ExactFile,
        }],
    };
    let (moved, kind) = transition.map_address(&address("src/a.rs"));
    assert_eq!(moved.registry, "moved.toml");
    assert_eq!(moved.path, "src/a.rs");
    assert_eq!(kind, Some(MovementKind::ExactFile));
    let (path, kind) = transition.map_path("src/a.rs");
    assert_eq!(path, "src/a.rs");
    assert_eq!(kind, None);
}

#[test]
fn directories_are_cut_off_as_the_platform_does() {
    let moved = |style: PathStyle| {
        let rename = Rename {
            old: "a\\x.rs".to_owned(),
            new: "b\\x.rs".to_owned(),
            kind: RenameKind::Directory,
        };
        let transition =
            Transition { style, renames: vec![rename], entry_renames: Vec::new() };
        transition.map_path("a/y.rs").0
    };
    assert_eq!(moved(PathStyle::Windows), "b/y.rs");
    assert_eq!(moved(PathStyle::Unix), "a/y.rs");
}

#[test]
fn evidence_adds_up_to_the_strongest() {
    let file = Some(MovementKind::ExactFile);
    let directory = Some(MovementKind::Directory);
    assert_eq!(movement(None, None), None);
    assert_eq!(movement(file, None), file);
    assert_eq!(movement(None, file), file);
    assert_eq!(movement(directory, file), directory);
    assert_eq!(movement(file, directory), directory);
}

#[test]
fn links_are_found_by_their_commits() {
    let link = |old: &str, new: &str| Link {
        old: old.to_owned(),
        new: new.to_owned(),
        transition: Transition {
            style: PathStyle::Unix,
            renames: Vec::new(),
            entry_renames: Vec::new(),
        },
    };
    let links = Transitions { links: vec![link("a", "b"), link("b", "c")] };
    assert!(links.get("a", "b").is_some());
    assert!(links.get("b", "a").is_none());
}

#[test]
fn records_sort_by_address_and_value() {
    let mut only = commit("to", &[], day(4, 1));
    only.entries.push(entry("src/b.rs", 3));
    only.entries.push(entry("src/a.rs", 3));
    let mut hard = entry("src/z.rs", 3);
    hard.address.severity = "hard".to_owned();
    only.entries.push(hard);
    let base = commit("base", &[], day(4, 1));
    only.parents.push("base".to_owned());
    let history = vec![base, only];
    let links = transitions(&repository(), &history, vec![listing(&[])]).ok().unwrap();
    let unsorted = classify(&history, &links, 0, "base..to").ok().unwrap();
    assert_eq!(paths(&unsorted.added), ["src/b.rs", "src/a.rs", "src/z.rs"]);
    let sorted = ok(evaluate(&repository(), &history, &links, 0, Ok(Vec::new())));
    assert_eq!(paths(&sorted.added), ["src/z.rs", "src/a.rs", "src/b.rs"]);
}

// ---------------------------------------------------------------------------
// Snapshots
// ---------------------------------------------------------------------------

fn loaded(tokens: bool) -> Loaded {
    Loaded {
        config: Config {
            fissile_config_version: 1,
            scan: Scan {
                include_paths: vec!["src".to_owned()],
                exclude: vec!["target".to_owned()],
                respect_gitignore: false,
            },
            output: Output {
                format: Format::Text,
                color: Color::Auto,
                success: "ok".to_owned(),
            },
            exceptions: Exceptions {
                soft_registry: SOFT.to_owned(),
                hard_registry: "hard.toml".to_owned(),
                stale: Stale::Ignore,
            },
            tokens: Tokens { enabled: tokens, command: Vec::new() },
            messages: Vec::new(),
            rules: vec![RuleSpec {
                id: "source".to_owned(),
                include_paths: vec!["src/**/*.rs".to_owned()],
                exclude: vec!["src/gen/**".to_owned()],
                unit: UnitSpec::Lines,
                soft: Some(1),
                hard: Some(20),
                priority: 0,
                message: None,
                soft_message: None,
                hard_message: None,
                count_blank_lines: false,
                count_comment_lines: true,
            }],
        },
        source: None,
        checker: Checker { rules: Vec::new() },
        registries: Registries {
            entries: vec![
                exception("src/b.rs", MatchKind::Glob),
                exception("src/a.rs", MatchKind::Exact),
            ],
        },
        root: "/work".to_owned(),
        soft_registry: SOFT.to_owned(),
        hard_registry: "hard.toml".to_owned(),
    }
}

fn exception(path: &str, match_kind: MatchKind) -> Exception {
    Exception {
        severity: Severity::Soft,
        registry: SOFT.to_owned(),
        path: path.to_owned(),
        match_kind,
        max_unit: Unit::Lines,
        max_value: 3,
        rules: vec!["*".to_owned()],
        kind: Kind::Deferred,
    }
}

fn rule() -> Rule {
    Rule {
        id: "source".to_owned(),
        budget: Budget { unit: Unit::Lines, soft: Some(1), hard: Some(20) },
    }
}

fn judged(
    rule: &Rule,
    actual: u64,
    hard: Result<Verdict, String>,
    soft: Result<Verdict, String>,
) -> Judged<'_> {
    Judged { hit: RuleHit { rule, actual }, hard, soft }
}

fn scanned<'a>(path: &str, judged: Vec<Judged<'a>>) -> Scanned<'a> {
    Scanned { path: path.to_owned(), outcome: FileOutcome::Judged(judged) }
}

fn revision() -> Revision {
    Revision {
        sha: "tip".to_owned(),
        timestamp: day(3, 1),
        parents: vec!["base".to_owned()],
    }
}

fn take(files: Vec<Scanned>, tokens: bool) -> Result<Snapshot, HistoryError> {
    let loaded = loaded(tokens);
    let mut blobs = TextMap::new();
    blobs.insert("src/a.rs".to_owned(), "b1".to_owned());
    snapshot(&repository(), &revision(), Ok(&loaded), Ok(files), blobs)
}

#[test]
fn a_snapshot_holds_what_stands() {
    let rule = rule();
    let silent = || Ok(Verdict::Silenced(Kind::Deferred));
    let kept = || Ok(Verdict::Silenced(Kind::Permanent));
    let standing = || Ok(Verdict::Standing);
    let files = vec![
        scanned("src/z.rs", vec![judged(&rule, 2, standing(), standing())]),
        scanned("src/at_limit.rs", vec![judged(&rule, 1, standing(), standing())]),
        scanned("src/silenced.rs", vec![judged(&rule, 9, standing(), silent())]),
        scanned("src/kept.rs", vec![judged(&rule, 21, kept(), standing())]),
        scanned("src/hard.rs", vec![judged(&rule, 21, silent(), standing())]),
        scanned("src/under.rs", vec![judged(&rule, 20, kept(), standing())]),
    ];
    let snapshot = take(files, false).ok().unwrap();
    let found: Vec<(&str, u64)> =
        snapshot.findings.iter().map(|f| (f.address.path.as_str(), f.actual)).collect();
    assert_eq!(found, [("src/hard.rs", 21), ("src/under.rs", 20), ("src/z.rs", 2)]);
    for f in &snapshot.findings {
        assert_eq!(f.limit, 1);
        assert_eq!(f.address.rule, "source");
        assert_eq!(f.address.unit, "lines");
    }
    let entries: Vec<(&str, &str)> = snapshot
        .entries
        .iter()
        .map(|e| (e.address.path.as_str(), e.address.match_kind.as_str()))
        .collect();
    assert_eq!(entries, [("src/a.rs", "exact"), ("src/b.rs", "glob")]);
    assert_eq!(snapshot.config_paths, ["src", "target", "src/**/*.rs", "src/gen/**"]);
    assert_eq!(snapshot.date, "2024-03-01T00:00:00Z");
    assert_eq!(snapshot.sha, "tip");
    assert_eq!(snapshot.parents, ["base"]);
    assert!(snapshot.blobs.contains("src/a.rs"));
}

#[test]
fn a_snapshot_that_cannot_be_taken_is_refused() {
    let rule = rule();
    let standing = || Ok(Verdict::Standing);
    let broken = || Err("bad registry".to_owned());
    let lost = || {
        vec![Scanned {
            path: "src/a.rs".to_owned(),
            outcome: FileOutcome::Unmeasured("gone".to_owned()),
        }]
    };
    assert_eq!(
        refusal(take(lost(), false)),
        "history base..to: revision tip: measurement unavailable for src/a.rs: gone"
    );
    assert_eq!(
        refusal(take(lost(), true)),
        "history base..to: revision tip: token evaluation unavailable"
    );
    let unruled = vec![Scanned {
        path: "src/a.rs".to_owned(),
        outcome: FileOutcome::Unruled("overlap".to_owned()),
    }];
    assert_eq!(refusal(take(unruled, false)), "history base..to: revision tip: overlap");
    let soft = vec![scanned("src/a.rs", vec![judged(&rule, 2, standing(), broken())])];
    assert_eq!(refusal(take(soft, false)), "history base..to: revision tip: bad registry");
    let hard = vec![scanned("src/a.rs", vec![judged(&rule, 21, broken(), standing())])];
    assert_eq!(refusal(take(hard, false)), "history base..to: revision tip: bad registry");
    // Below the hard limit the hard registry is not asked.
    let unasked = vec![scanned("src/a.rs", vec![judged(&rule, 2, broken(), standing())])];
    assert!(take(unasked, false).is_ok());
    let unloaded = snapshot(
        &repository(),
        &revision(),
        Err("no config".to_owned()),
        Ok(Vec::new()),
        TextMap::new(),
    );
    assert_eq!(refusal(unloaded), "history base..to: revision tip: no config");
    let loaded = loaded(false);
    let unwalked = snapshot(
        &repository(),
        &revision(),
        Ok(&loaded),
        Err("no walk".to_owned()),
        TextMap::new(),
    );
    assert_eq!(refusal(unwalked), "history base..to: revision tip: no walk");
}
