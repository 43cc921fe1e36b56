//! How Git's answers read, and what Git is asked.

use fissile::history::config_path::historical_config;
use fissile::history::error::HistoryError;
use fissile::history::git::{
    ancestor_args, blob_args, is_shallow_args, renames_args, resolve_args, revisions_args,
    safe_target, shallow_path_args, tree_args, work_tree_args, GitOutput, RenameKind, Repository,
};
use fissile::history::range::parse_range;
use fissile::path_start::PathStyle;

fn said(stdout: &[u8]) -> Result<GitOutput, String> {
    Ok(GitOutput { success: true, stdout: stdout.to_vec() })
}

fn failed() -> Result<GitOutput, String> {
    Ok(GitOutput { success: false, stdout: Vec::new() })
}

fn lost() -> Result<GitOutput, String> {
    Err("no such file".to_owned())
}

fn repository() -> Repository {
    match Repository::open("base..to", PathStyle::Unix, said(b"true\n")) {
        Ok(repository) => repository,
        Err(error) => panic!("{}", error.text()),
    }
}

fn refusal<T>(result: Result<T, HistoryError>) -> String {
    match result {
        Ok(_) => panic!("not refused"),
        Err(error) => error.text(),
    }
}

#[test]
fn ranges_have_two_sides() {
    assert_eq!(parse_range("base..to").ok(), Some(("base".to_owned(), "to".to_owned())));
    assert_eq!(parse_range("-x..to").ok(), Some(("-x".to_owned(), "to".to_owned())));
    for bad in ["base...to", "base..", "..to", "..", "base", "", "a..b..c"] {
        assert_eq!(
            refusal(parse_range(bad)),
            format!("history {bad}: expected one <from>..<to> range")
        );
    }
}

#[test]
fn only_a_work_tree_is_opened() {
    for outcome in [said(b"false\n"), said(b"true"), failed(), lost()] {
        assert_eq!(
            refusal(Repository::open("HEAD~1..HEAD", PathStyle::Unix, outcome)),
            "history HEAD~1..HEAD: not a Git work tree"
        );
    }
}

#[test]
fn expressions_resolve() {
    let repository = repository();
    assert_eq!(repository.resolve("base", said(b"  abc\n")).ok(), Some("abc".to_owned()));
    assert_eq!(
        refusal(repository.resolve("missing", failed())),
        "history base..to: revision `missing` does not resolve to a commit"
    );
    assert_eq!(
        refusal(repository.resolve("base", lost())),
        "history base..to: Git is unavailable: no such file"
    );
}

#[test]
fn bytes_that_are_no_text_are_replaced() {
    let repository = repository();
    let name = repository.resolve("base", said(b"a\xffb\n")).ok().unwrap();
    assert_eq!(name, "a\u{fffd}b");
    let kept = repository.resolve("base", said("\u{e9}\u{4e2d}\n".as_bytes())).ok().unwrap();
    assert_eq!(kept, "\u{e9}\u{4e2d}");
}

#[test]
fn ancestry_is_required() {
    let repository = repository();
    assert!(repository.require_ancestor("base", said(b"")).is_ok());
    assert_eq!(
        refusal(repository.require_ancestor("side", failed())),
        "history base..to: `side` is not an ancestor of `to`"
    );
    assert_eq!(repository.to_expression(), "to");
}

#[test]
fn revisions_are_read() {
    let repository = repository();
    let listing = b"aaa\0100\0\nbbb\0-5\0aaa\nccc\0+7\0aaa bbb\n";
    let revisions = repository.revisions(said(listing)).ok().unwrap();
    let seen: Vec<(&str, i64, usize)> =
        revisions.iter().map(|r| (r.sha.as_str(), r.timestamp, r.parents.len())).collect();
    assert_eq!(seen, [("aaa", 100, 0), ("bbb", -5, 1), ("ccc", 7, 2)]);
    assert_eq!(revisions[2].parents, ["aaa", "bbb"]);
    assert_eq!(
        refusal(repository.revisions(failed())),
        "history base..to: Git history is unavailable"
    );
    for bad in [&b"aaa\0soon\0\n"[..], &b"aaa\n"[..]] {
        assert_eq!(
            refusal(repository.revisions(said(bad))),
            "history base..to: Git returned malformed commit metadata"
        );
    }
}

#[test]
fn shallow_boundaries_are_read() {
    let repository = repository();
    assert_eq!(repository.is_shallow(said(b"true\n")).ok(), Some(true));
    assert_eq!(repository.is_shallow(said(b"false\n")).ok(), Some(false));
    assert_eq!(repository.is_shallow(failed()).ok(), Some(false));
    assert_eq!(
        repository.shallow_file(said(b".git/shallow\n")).ok(),
        Some(".git/shallow".to_owned())
    );
    assert_eq!(
        repository.shallow_file(said(b"/git/shallow\n")).ok(),
        Some("/git/shallow".to_owned())
    );
    let unavailable = "history base..to: shallow boundary metadata is unavailable";
    assert_eq!(refusal(repository.shallow_file(failed())), unavailable);
    assert_eq!(refusal(repository.shallow_boundaries(true, None)), unavailable);
    assert_eq!(
        repository.shallow_boundaries(true, Some("one\ntwo\n".to_owned())).ok(),
        Some(vec!["one".to_owned(), "two".to_owned()])
    );
    assert_eq!(repository.shallow_boundaries(false, None).ok(), Some(Vec::new()));
}

#[test]
fn tree_records_are_read() {
    let repository = repository();
    let listing = b"100644 blob aaa\tsrc/a.rs\0100755 blob bbb\trun me.sh\0120000 blob ccc\tlink\0";
    let records = repository.tree_records("tip", said(listing)).ok().unwrap();
    assert_eq!(records.len(), 3);
    let file = repository.materialize("tip", "/scratch", &records[0]).ok().unwrap();
    assert_eq!((file.path.as_str(), file.blob.as_str()), ("src/a.rs", "aaa"));
    assert_eq!(file.target, "/scratch/src/a.rs");
    assert!(!file.executable && !file.link);
    let script = repository.materialize("tip", "/scratch", &records[1]).ok().unwrap();
    assert_eq!(script.target, "/scratch/run me.sh");
    assert!(script.executable && !script.link);
    let link = repository.materialize("tip", "/scratch", &records[2]).ok().unwrap();
    assert!(link.link && !link.executable);
    assert_eq!(
        refusal(repository.tree_records("tip", failed())),
        "history base..to: revision tip: committed tree is unavailable"
    );
    for bad in [&b"100644 blob aaa src/a.rs"[..], &b"100644 aaa\tsrc/a.rs"[..]] {
        assert_eq!(
            refusal(repository.materialize("tip", "/scratch", &bad.to_vec())),
            "history base..to: revision tip: Git returned malformed tree metadata"
        );
    }
    assert_eq!(
        refusal(repository.materialize("tip", "/scratch", &b"100644 blob a\t../x".to_vec())),
        "history base..to: revision tip: unsafe path in committed tree: ../x"
    );
}

#[test]
fn targets_stay_below_the_root() {
    let unix = PathStyle::Unix;
    assert_eq!(safe_target(unix, "/root", "a/b"), Some("/root/a/b".to_owned()));
    assert_eq!(safe_target(unix, "/root", "a\\..\\b"), Some("/root/a\\..\\b".to_owned()));
    assert_eq!(safe_target(unix, "/root", "c:b"), Some("/root/c:b".to_owned()));
    for bad in ["../a", "a/../b", "/etc/a", "./a", ".."] {
        assert_eq!(safe_target(unix, "/root", bad), None);
    }
}

#[test]
fn a_backslash_separates_on_windows() {
    let windows = PathStyle::Windows;
    assert_eq!(safe_target(windows, "C:\\tmp", "a/b"), Some("C:\\tmp\\a/b".to_owned()));
    assert_eq!(safe_target(windows, "C:\\tmp\\", "a\\b"), Some("C:\\tmp\\a\\b".to_owned()));
    assert_eq!(safe_target(windows, "C:", "a"), Some("C:a".to_owned()));
    for bad in [
        "..\\a", "a\\..\\b", "a/..\\b", "\\etc\\a", "/etc/a", ".\\a", "C:a", "c:\\a",
        "\\\\server\\share\\a",
    ] {
        assert_eq!(safe_target(windows, "C:\\tmp", bad), None);
    }
    let opened = Repository::open("base..to", windows, said(b"true\n")).ok().unwrap();
    assert_eq!(
        refusal(opened.materialize("tip", "C:\\tmp", &b"100644 blob a\tx\\..\\y".to_vec())),
        "history base..to: revision tip: unsafe path in committed tree: x\\..\\y"
    );
    let outside = "history base..to: configured file is outside the committed tree";
    let root = || Ok("\\\\?\\C:\\work\\repo".to_owned());
    let asked = |path: &str, file: &str| {
        historical_config("base..to", windows, Some(path), root(), Some(file.to_owned()))
    };
    assert_eq!(refusal(asked("..\\out.toml", "\\\\?\\C:\\work\\out.toml")), outside);
    assert_eq!(refusal(asked("x", "\\\\?\\C:\\work\\out.toml")), outside);
    assert_eq!(refusal(asked("x", "C:\\work\\repo\\x")), outside);
    assert_eq!(
        asked("conf\\f.toml", "\\\\?\\C:\\work\\repo\\conf\\f.toml").ok(),
        Some(Some("conf\\f.toml".to_owned()))
    );
    assert_eq!(
        asked("f.toml", "\\\\?\\c:\\work\\repo\\f.toml").ok(),
        Some(Some("f.toml".to_owned()))
    );
    assert_eq!(refusal(asked("x", "\\\\?\\C:\\work\\repo\\C:x")), outside);
    let share = |file: &str| {
        let root = Ok("\\\\server\\share".to_owned());
        historical_config("base..to", windows, Some("x"), root, Some(file.to_owned()))
    };
    assert_eq!(share("\\\\server\\share\\x").ok(), Some(Some("x".to_owned())));
    assert_eq!(refusal(share("\\\\server\\other\\x")), outside);
    // The names of a server and its share are no steps.
    let lost =
        historical_config("base..to", windows, Some("\\\\..\\b\\c"), Err("gone".to_owned()), None);
    assert_eq!(refusal(lost), "history base..to: repository root is unavailable: gone");
}

#[test]
fn renames_are_read() {
    let repository = repository();
    let listing = b"M\0src/same.rs\0R100\0old.rs\0new.rs\0C075\0from.rs\0to.rs\0R050\0a\0b\0D\0gone\0";
    let renames = repository.renames("tip", said(listing)).ok().unwrap();
    let seen: Vec<(&str, &str)> =
        renames.iter().map(|r| (r.old.as_str(), r.new.as_str())).collect();
    assert_eq!(seen, [("old.rs", "new.rs"), ("a", "b")]);
    for rename in &renames {
        assert_eq!(rename.kind, RenameKind::ExactFile);
    }
    assert_eq!(
        refusal(repository.renames("tip", said(b"R100\0only\0"))),
        "history base..to: revision tip: Git returned malformed rename evidence"
    );
}

#[test]
fn refusals_name_the_revision() {
    let repository = repository();
    assert_eq!(
        repository.error_at("tip", "cause").text(),
        "history base..to: revision tip: cause"
    );
    assert_eq!(
        repository.io_at("tip", "disk full").text(),
        "history base..to: revision tip: snapshot materialization failed: disk full"
    );
    assert_eq!(
        repository.blob_unavailable("tip", "a.rs").text(),
        "history base..to: revision tip: blob for a.rs is unavailable"
    );
    let bare = HistoryError { range: None, cause: "cause".to_owned() };
    assert_eq!(bare.text(), "cause");
}

#[test]
fn expressions_are_data() {
    assert_eq!(
        resolve_args("--upload-pack=x"),
        ["rev-parse", "--verify", "--end-of-options", "--upload-pack=x^{commit}"]
    );
    assert_eq!(work_tree_args(), ["rev-parse", "--is-inside-work-tree"]);
    assert_eq!(ancestor_args("a", "b"), ["merge-base", "--is-ancestor", "--", "a", "b"]);
    assert_eq!(
        revisions_args("b"),
        ["log", "--topo-order", "--reverse", "--format=%H%x00%ct%x00%P", "b", "--"]
    );
    assert_eq!(is_shallow_args(), ["rev-parse", "--is-shallow-repository"]);
    assert_eq!(shallow_path_args(), ["rev-parse", "--git-path", "shallow"]);
    assert_eq!(tree_args("a"), ["ls-tree", "-r", "-z", "a"]);
    assert_eq!(blob_args("a"), ["cat-file", "blob", "a"]);
    assert_eq!(
        renames_args("a", "b"),
        ["diff-tree", "-r", "-M", "--name-status", "-z", "a", "b", "--"]
    );
}

#[test]
fn outside_tree_relative_config_is_refused() {
    let root = || Ok("/work/repo".to_owned());
    let outside = "history base..to: configured file is outside the committed tree";
    let found = |file: &str| {
        historical_config("base..to", PathStyle::Unix, Some("fissile.toml"), root(), Some(file.to_owned()))
    };
    let up = historical_config(
        "base..to",
        PathStyle::Unix,
        Some("../repo-outside.toml"),
        root(),
        Some("/work/repo-outside.toml".to_owned()),
    );
    assert_eq!(refusal(up), outside);
    assert_eq!(refusal(found("/work/repo-outside.toml")), outside);
    assert_eq!(refusal(found("/work/repo")), outside);
    assert_eq!(refusal(historical_config("base..to", PathStyle::Unix, Some("gone"), root(), None)), outside);
    assert_eq!(
        found("/work/repo/conf/fissile.toml").ok(),
        Some(Some("conf/fissile.toml".to_owned()))
    );
    assert_eq!(historical_config("base..to", PathStyle::Unix, None, root(), None).ok(), Some(None));
    let lost = historical_config("base..to", PathStyle::Unix, Some("a"), Err("gone".to_owned()), None);
    assert_eq!(refusal(lost), "history base..to: repository root is unavailable: gone");
}
