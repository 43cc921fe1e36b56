//! What is asked of Git for a comparison, and how its answers are read.

use vstd::prelude::*;
use vstd::string::*;

use super::error::{failure, failure_at, HistoryError};
use super::range::{after_dots, to_side};
use crate::path_start::{is_verbatim, prefix_len, PathStyle};
use crate::paths::{
    join_path, joined_to, leads_down, names, only_down, separator, step_up,
};
use crate::text::{
    byte_views, first_is, integer, join, lines, lossy, non_empty, parse_i64, pieces, same,
    split_bytes_non_empty, split_lines, split_text, split_words, text_from_utf8, trim, trimmed,
    words, Text,
};

verus! {

// ---------------------------------------------------------------------------
// Data
// ---------------------------------------------------------------------------

/// What a finished Git command gave back.
#[derive(Debug)]
pub struct GitOutput {
    pub success: bool,
    pub stdout: Vec<u8>,
}

/// A Git command either finished or could not be started, for a reason.
pub type Outcome = Result<GitOutput, String>;

/// A commit and its place in the graph.
#[derive(Debug)]
pub struct Revision {
    pub sha: String,
    pub timestamp: i64,
    pub parents: Vec<String>,
}

pub struct RevisionView {
    pub sha: Text,
    pub timestamp: int,
    pub parents: Seq<Text>,
}

impl View for Revision {
    type V = RevisionView;

    open spec fn view(&self) -> RevisionView {
        RevisionView {
            sha: self.sha@,
            timestamp: self.timestamp as int,
            parents: self.parents.deep_view(),
        }
    }
}

impl DeepView for Revision {
    type V = RevisionView;

    open spec fn deep_view(&self) -> RevisionView {
        self@
    }
}

#[derive(Clone, Copy, Debug, PartialEq, Eq, Structural)]
pub enum RenameKind {
    ExactFile,
    Directory,
}

/// A rename that Git confirmed.
#[derive(Debug)]
pub struct Rename {
    pub old: String,
    pub new: String,
    pub kind: RenameKind,
}

pub struct RenameView {
    pub old: Text,
    pub new: Text,
    pub kind: RenameKind,
}

impl View for Rename {
    type V = RenameView;

    open spec fn view(&self) -> RenameView {
        RenameView { old: self.old@, new: self.new@, kind: self.kind }
    }
}

impl DeepView for Rename {
    type V = RenameView;

    open spec fn deep_view(&self) -> RenameView {
        self@
    }
}

impl Clone for Rename {
    fn clone(&self) -> (r: Self)
        ensures
            r@ == self@,
    {
        Rename { old: self.old.clone(), new: self.new.clone(), kind: self.kind }
    }
}

/// A file of a committed tree.
#[derive(Debug)]
pub struct TreeEntry {
    pub path: String,
    pub blob: String,
    /// Where the file is written below the scratch root.
    pub target: String,
    /// A symbolic link is listed but not written.
    pub link: bool,
    pub executable: bool,
}

pub struct TreeEntryView {
    pub path: Text,
    pub blob: Text,
    pub target: Text,
    pub link: bool,
    pub executable: bool,
}

impl View for TreeEntry {
    type V = TreeEntryView;

    open spec fn view(&self) -> TreeEntryView {
        TreeEntryView {
            path: self.path@,
            blob: self.blob@,
            target: self.target@,
            link: self.link,
            executable: self.executable,
        }
    }
}

// ---------------------------------------------------------------------------
// What Git's answers mean
// ---------------------------------------------------------------------------

/// A line of the commit listing: the commit, its time and its parents,
/// separated by NUL.
pub open spec fn revision_line(line: Text) -> Option<RevisionView> {
    let fields = pieces(line, '\0');
    if fields.len() != 3 || fields[0].len() == 0 {
        None
    } else {
        match integer(fields[1]) {
            Some(seconds) if i64::MIN <= seconds <= i64::MAX => Some(
                RevisionView { sha: fields[0], timestamp: seconds, parents: words(fields[2]) },
            ),
            _ => None,
        }
    }
}

/// Every line of a commit listing says a commit.
pub open spec fn all_revisions(listing: Seq<Text>) -> bool {
    forall|i: int| 0 <= i < listing.len() ==> revision_line(#[trigger] listing[i]) is Some
}

/// The commits of a listing.
pub open spec fn revisions_of(listing: Seq<Text>) -> Seq<RevisionView> {
    listing.map_values(|line: Text| revision_line(line).unwrap())
}

pub open spec fn begins(s: Text, c: char) -> bool {
    s.len() > 0 && s[0] == c
}

/// The renames of a name-status listing: a status, then one path, or two for
/// a rename or a copy. A copy is no rename. `None` when a rename lacks a path.
pub open spec fn rename_records(fields: Seq<Text>) -> Option<Seq<RenameView>>
    decreases fields.len(),
{
    if fields.len() == 0 {
        Some(Seq::<RenameView>::empty())
    } else if begins(fields[0], 'R') {
        if fields.len() < 3 {
            None
        } else {
            let rename = RenameView {
                old: fields[1],
                new: fields[2],
                kind: RenameKind::ExactFile,
            };
            match rename_records(fields.skip(3)) {
                Some(rest) => Some(seq![rename] + rest),
                None => None,
            }
        }
    } else {
        let taken: int = if begins(fields[0], 'C') {
            3
        } else {
            2
        };
        if fields.len() <= taken {
            Some(Seq::<RenameView>::empty())
        } else {
            rename_records(fields.skip(taken))
        }
    }
}

/// The texts of a NUL-separated listing.
pub open spec fn listing_fields(stdout: Seq<u8>) -> Seq<Text> {
    non_empty(pieces(stdout, 0u8)).map_values(|field: Seq<u8>| lossy(field))
}

/// `s` before and after the first `separator`.
pub open spec fn cut(s: Text, separator: char) -> Option<(Text, Text)> {
    let parts = pieces(s, separator);
    if parts.len() < 2 {
        None
    } else {
        Some((parts[0], s.skip(parts[0].len() as int + 1)))
    }
}

/// What a tree record says: mode, kind and object, a tab, and the path.
pub open spec fn tree_record_fields(record: Text) -> Option<(Text, Text, Text)> {
    match cut(record, '\t') {
        Some((metadata, path)) => {
            let fields = words(metadata);
            if fields.len() < 3 {
                None
            } else {
                Some((fields[0], fields[2], path))
            }
        },
        None => None,
    }
}

// ---------------------------------------------------------------------------
// Reading
// ---------------------------------------------------------------------------

/// The first piece is what precedes the first separator.
proof fn lemma_first_piece(s: Text, separator: char, at: int)
    requires
        0 <= at <= s.len(),
        forall|k: int| 0 <= k < at ==> s[k] != separator,
        at < s.len() ==> s[at] == separator,
    ensures
        pieces(s, separator)[0] == s.take(at),
        at == s.len() ==> pieces(s, separator).len() == 1,
        at < s.len() ==> pieces(s, separator).len() >= 2,
    decreases s.len(),
{
    crate::text::lemma_pieces_some(s, separator);
    if s.len() > 0 {
        let before = s.drop_last();
        crate::text::lemma_pieces_some(before, separator);
        if at == s.len() {
            lemma_first_piece(before, separator, at - 1);
            assert(before.take(at - 1) =~= before);
            assert(s.take(at) =~= before.take(at - 1).push(s.last()));
        } else if at == s.len() - 1 {
            lemma_first_piece(before, separator, at);
            assert(before.take(at) =~= s.take(at));
        } else {
            lemma_first_piece(before, separator, at);
            assert(before.take(at) =~= s.take(at));
        }
    } else {
        assert(s.take(0) =~= Seq::<char>::empty());
    }
}

/// A text before and after the first `separator`.
fn cut_at(s: &str, separator: char) -> (r: Option<(String, String)>)
    ensures
        match r {
            Some((a, b)) => cut(s@, separator) == Some((a@, b@)),
            None => cut(s@, separator) is None,
        },
{
    let chars = crate::text::chars_of(s);
    let mut at: usize = 0;
    while at < chars.len() && chars[at] != separator
        invariant
            at <= chars@.len(),
            forall|k: int| 0 <= k < at ==> chars@[k] != separator,
        decreases chars@.len() - at,
    {
        at += 1;
    }
    proof {
        lemma_first_piece(s@, separator, at as int);
    }
    if at == chars.len() {
        return None;
    }
    let a = crate::text::text_range(&chars, 0, at);
    let b = crate::text::text_range(&chars, at + 1, chars.len());
    assert(a@ =~= s@.take(at as int));
    assert(b@ =~= s@.skip(at + 1));
    Some((a, b))
}

/// Reads a line of the commit listing.
fn read_revision(line: &str) -> (r: Option<Revision>)
    ensures
        match r {
            Some(revision) => revision_line(line@) == Some(revision@),
            None => revision_line(line@) is None,
        },
{
    let fields = split_text(line, '\0');
    let ghost views = pieces(line@, '\0');
    assert(fields.deep_view() == views);
    if fields.len() != 3 {
        return None;
    }
    assert(fields@[0]@ == views[0] && fields@[1]@ == views[1] && fields@[2]@ == views[2]);
    if fields[0].as_str().is_empty() {
        return None;
    }
    match parse_i64(fields[1].as_str()) {
        None => None,
        Some(timestamp) => Some(
            Revision {
                sha: fields[0].clone(),
                timestamp,
                parents: split_words(fields[2].as_str()),
            },
        ),
    }
}

/// Reads a commit listing.
pub fn read_revisions(text: &str) -> (r: Option<Vec<Revision>>)
    ensures
        match r {
            Some(revisions) => all_revisions(lines(text@)) && revisions.deep_view()
                == revisions_of(lines(text@)),
            None => !all_revisions(lines(text@)),
        },
{
    let listing = split_lines(text);
    let ghost views = lines(text@);
    let mut r: Vec<Revision> = Vec::new();
    let mut i: usize = 0;
    while i < listing.len()
        invariant
            i <= listing@.len(),
            views == lines(text@),
            listing.deep_view() == views,
            r@.len() == i,
            forall|k: int| 0 <= k < i ==> revision_line(#[trigger] views[k]) == Some(r@[k]@),
        decreases listing@.len() - i,
    {
        assert(listing@[i as int]@ == views[i as int]);
        match read_revision(listing[i].as_str()) {
            Some(revision) => {
                r.push(revision);
            },
            None => {
                return None;
            },
        }
        i += 1;
    }
    assert forall|k: int| 0 <= k < views.len() implies revision_line(#[trigger] views[k])
        is Some by {
        assert(revision_line(views[k]) == Some(r@[k]@));
    }
    assert forall|k: int| 0 <= k < views.len() implies #[trigger] r.deep_view()[k]
        == revisions_of(views)[k] by {
        assert(revision_line(views[k]) == Some(r@[k]@));
    }
    assert(r.deep_view() =~= revisions_of(views));
    Some(r)
}

/// The texts of a NUL-separated listing.
pub fn read_listing(stdout: &Vec<u8>) -> (r: Vec<String>)
    ensures
        r.deep_view() == listing_fields(stdout@),
{
    let parts = split_bytes_non_empty(stdout, 0u8);
    let ghost views = byte_views(parts@);
    let mut r: Vec<String> = Vec::new();
    let mut i: usize = 0;
    while i < parts.len()
        invariant
            i <= parts@.len(),
            views == byte_views(parts@),
            r@.len() == i,
            forall|k: int| 0 <= k < i ==> (#[trigger] r@[k])@ == lossy(views[k]),
        decreases parts@.len() - i,
    {
        r.push(text_from_utf8(parts[i].as_slice()));
        assert(views[i as int] == parts@[i as int]@);
        i += 1;
    }
    assert(r.deep_view() =~= listing_fields(stdout@));
    r
}

/// The renames of a name-status listing.
pub fn read_renames(fields: &Vec<String>) -> (r: Option<Vec<Rename>>)
    ensures
        match r {
            Some(renames) => rename_records(fields.deep_view()) == Some(renames.deep_view()),
            None => rename_records(fields.deep_view()) is None,
        },
{
    let ghost all = fields.deep_view();
    let n: usize = fields.len();
    let mut r: Vec<Rename> = Vec::new();
    let mut i: usize = 0;
    assert(all.skip(0) =~= all);
    assert(r.deep_view() =~= Seq::<RenameView>::empty());
    while i < n
        invariant
            n == fields@.len(),
            all == fields.deep_view(),
            i <= n,
            match rename_records(all.skip(i as int)) {
                Some(rest) => rename_records(all) matches Some(whole) && whole =~= r.deep_view()
                    + rest,
                None => rename_records(all) is None,
            },
        decreases n - i,
    {
        let ghost here = all.skip(i as int);
        assert(here[0] == fields@[i as int]@);
        let renamed: bool = first_is(fields[i].as_str(), 'R');
        let copied: bool = first_is(fields[i].as_str(), 'C');
        if renamed {
            if n - i < 3 {
                return None;
            }
            assert(here[1] == fields@[i + 1]@ && here[2] == fields@[i + 2]@);
            let ghost before = r.deep_view();
            let rename = Rename {
                old: fields[i + 1].clone(),
                new: fields[i + 2].clone(),
                kind: RenameKind::ExactFile,
            };
            let ghost view = rename@;
            r.push(rename);
            assert(r.deep_view() =~= before.push(view));
            assert(here.skip(3) =~= all.skip(i + 3));
            i += 3;
        } else {
            let taken: usize = if copied {
                3
            } else {
                2
            };
            if n - i <= taken {
                assert(rename_records(here) == Some(Seq::<RenameView>::empty()));
                assert(all.skip(n as int) =~= Seq::<Text>::empty());
                i = n;
            } else {
                assert(here.skip(taken as int) =~= all.skip(i + taken));
                i += taken;
            }
        }
    }
    assert(all.skip(i as int) =~= Seq::<Text>::empty());
    assert(rename_records(all)->Some_0 =~= r.deep_view());
    Some(r)
}

// ---------------------------------------------------------------------------
// What Git is asked
// ---------------------------------------------------------------------------

/// Asks whether the directory belongs to a work tree.
pub fn work_tree_args() -> (r: Vec<String>)
    ensures
        r.deep_view() == seq!["rev-parse"@, "--is-inside-work-tree"@],
{
    let mut r: Vec<String> = Vec::new();
    r.push("rev-parse".to_owned());
    r.push("--is-inside-work-tree".to_owned());
    assert(r.deep_view() =~= seq!["rev-parse"@, "--is-inside-work-tree"@]);
    r
}

/// Asks for the commit of an expression. The expression comes after the end of
/// the options, so it is data whatever it starts with.
pub fn resolve_args(expression: &str) -> (r: Vec<String>)
    ensures
        r.deep_view() == seq![
            "rev-parse"@,
            "--verify"@,
            "--end-of-options"@,
            expression@ + "^{commit}"@,
        ],
{
    let mut requested = expression.to_owned();
    requested.append("^{commit}");
    let mut r: Vec<String> = Vec::new();
    r.push("rev-parse".to_owned());
    r.push("--verify".to_owned());
    r.push("--end-of-options".to_owned());
    r.push(requested);
    assert(r.deep_view() =~= seq![
        "rev-parse"@,
        "--verify"@,
        "--end-of-options"@,
        expression@ + "^{commit}"@,
    ]);
    r
}

/// Asks whether one commit is an ancestor of another.
pub fn ancestor_args(from: &str, to: &str) -> (r: Vec<String>)
    ensures
        r.deep_view() == seq!["merge-base"@, "--is-ancestor"@, "--"@, from@, to@],
{
    let mut r: Vec<String> = Vec::new();
    r.push("merge-base".to_owned());
    r.push("--is-ancestor".to_owned());
    r.push("--".to_owned());
    r.push(from.to_owned());
    r.push(to.to_owned());
    assert(r.deep_view() =~= seq!["merge-base"@, "--is-ancestor"@, "--"@, from@, to@]);
    r
}

/// Asks for every commit that reaches `to`, parents first.
pub fn revisions_args(to: &str) -> (r: Vec<String>)
    ensures
        r.deep_view() == seq!["log"@, "--topo-order"@, "--reverse"@, "--format=%H%x00%ct%x00%P"@, to@, "--"@],
{
    let mut r: Vec<String> = Vec::new();
    r.push("log".to_owned());
    r.push("--topo-order".to_owned());
    r.push("--reverse".to_owned());
    r.push("--format=%H%x00%ct%x00%P".to_owned());
    r.push(to.to_owned());
    r.push("--".to_owned());
    assert(r.deep_view() =~= seq!["log"@, "--topo-order"@, "--reverse"@, "--format=%H%x00%ct%x00%P"@, to@, "--"@]);
    r
}

/// Asks whether the repository is shallow.
pub fn is_shallow_args() -> (r: Vec<String>)
    ensures
        r.deep_view() == seq!["rev-parse"@, "--is-shallow-repository"@],
{
    let mut r: Vec<String> = Vec::new();
    r.push("rev-parse".to_owned());
    r.push("--is-shallow-repository".to_owned());
    assert(r.deep_view() =~= seq!["rev-parse"@, "--is-shallow-repository"@]);
    r
}

/// Asks for the file that lists the shallow boundaries.
pub fn shallow_path_args() -> (r: Vec<String>)
    ensures
        r.deep_view() == seq!["rev-parse"@, "--git-path"@, "shallow"@],
{
    let mut r: Vec<String> = Vec::new();
    r.push("rev-parse".to_owned());
    r.push("--git-path".to_owned());
    r.push("shallow".to_owned());
    assert(r.deep_view() =~= seq!["rev-parse"@, "--git-path"@, "shallow"@]);
    r
}

/// Asks for the files of a committed tree.
pub fn tree_args(sha: &str) -> (r: Vec<String>)
    ensures
        r.deep_view() == seq!["ls-tree"@, "-r"@, "-z"@, sha@],
{
    let mut r: Vec<String> = Vec::new();
    r.push("ls-tree".to_owned());
    r.push("-r".to_owned());
    r.push("-z".to_owned());
    r.push(sha.to_owned());
    assert(r.deep_view() =~= seq!["ls-tree"@, "-r"@, "-z"@, sha@]);
    r
}

/// Asks for the content of an object.
pub fn blob_args(blob: &str) -> (r: Vec<String>)
    ensures
        r.deep_view() == seq!["cat-file"@, "blob"@, blob@],
{
    let mut r: Vec<String> = Vec::new();
    r.push("cat-file".to_owned());
    r.push("blob".to_owned());
    r.push(blob.to_owned());
    assert(r.deep_view() =~= seq!["cat-file"@, "blob"@, blob@]);
    r
}

/// Asks for the changes between two commits, with renames.
pub fn renames_args(old: &str, new: &str) -> (r: Vec<String>)
    ensures
        r.deep_view() == seq!["diff-tree"@, "-r"@, "-M"@, "--name-status"@, "-z"@, old@, new@, "--"@],
{
    let mut r: Vec<String> = Vec::new();
    r.push("diff-tree".to_owned());
    r.push("-r".to_owned());
    r.push("-M".to_owned());
    r.push("--name-status".to_owned());
    r.push("-z".to_owned());
    r.push(old.to_owned());
    r.push(new.to_owned());
    r.push("--".to_owned());
    assert(r.deep_view() =~= seq!["diff-tree"@, "-r"@, "-M"@, "--name-status"@, "-z"@, old@, new@, "--"@]);
    r
}

// ---------------------------------------------------------------------------
// The repository
// ---------------------------------------------------------------------------

/// A work tree and the range that is asked of it.
#[derive(Debug)]
pub struct Repository {
    pub range: String,
    /// How paths are read where the repository stands.
    pub style: PathStyle,
}

/// The refusal when Git could not be started.
pub open spec fn unavailable(reason: Text) -> Text {
    "Git is unavailable: "@ + reason
}

/// Whether some output is the line `true`.
fn says_true(stdout: &Vec<u8>) -> (r: bool)
    ensures
        r == (stdout@ == true_line()),
{
    let r: bool = stdout.len() == 5 && stdout[0] == 0x74 && stdout[1] == 0x72 && stdout[2] == 0x75
        && stdout[3] == 0x65 && stdout[4] == 0x0a;
    assert(r ==> stdout@ =~= true_line());
    r
}

/// The bytes of the line `true`.
pub open spec fn true_line() -> Seq<u8> {
    seq![0x74u8, 0x72u8, 0x75u8, 0x65u8, 0x0au8]
}

impl Repository {
    /// A repository, if Git says that the directory belongs to a work tree.
    pub fn open(range: &str, style: PathStyle, outcome: Outcome) -> (r: Result<
        Repository,
        HistoryError,
    >)
        ensures
            match r {
                Ok(repository) => outcome matches Ok(output) && output.success && output.stdout@
                    == true_line() && repository.range@ == range@ && repository.style == style,
                Err(error) => !(outcome matches Ok(output) && output.success && output.stdout@
                    == true_line()) && error@ == failure(range@, "not a Git work tree"@),
            },
    {
        match outcome {
            Ok(output) => {
                if output.success && says_true(&output.stdout) {
                    return Ok(Repository { range: range.to_owned(), style });
                }
            },
            Err(_) => {},
        }
        Err(HistoryError::new(range, "not a Git work tree".to_owned()))
    }

    /// The output of a command that was started.
    pub fn run(&self, outcome: Outcome) -> (r: Result<GitOutput, HistoryError>)
        ensures
            match r {
                Ok(output) => outcome == Ok::<GitOutput, String>(output),
                Err(error) => outcome matches Err(reason) && error@ == failure(
                    self.range@,
                    unavailable(reason@),
                ),
            },
    {
        match outcome {
            Ok(output) => Ok(output),
            Err(reason) => {
                let mut cause = "Git is unavailable: ".to_owned();
                cause.append(reason.as_str());
                Err(HistoryError::new(self.range.as_str(), cause))
            },
        }
    }

    /// The commit that an expression resolved to.
    pub fn resolve(&self, expression: &str, outcome: Outcome) -> (r: Result<String, HistoryError>)
        ensures
            match outcome {
                Err(reason) => r matches Err(error) && error@ == failure(
                    self.range@,
                    unavailable(reason@),
                ),
                Ok(output) => if output.success {
                    r matches Ok(sha) && sha@ == trim(lossy(output.stdout@))
                } else {
                    r matches Err(error) && error@ == failure(
                        self.range@,
                        "revision `"@ + expression@ + "` does not resolve to a commit"@,
                    )
                },
            },
    {
        let output = match self.run(outcome) {
            Ok(output) => output,
            Err(error) => {
                return Err(error);
            },
        };
        if !output.success {
            let mut cause = "revision `".to_owned();
            cause.append(expression);
            cause.append("` does not resolve to a commit");
            return Err(HistoryError::new(self.range.as_str(), cause));
        }
        Ok(trimmed(text_from_utf8(output.stdout.as_slice()).as_str()))
    }

    /// Refuses a range whose left side is no ancestor of its right side.
    pub fn require_ancestor(&self, from_expr: &str, outcome: Outcome) -> (r: Result<
        (),
        HistoryError,
    >)
        ensures
            match outcome {
                Err(reason) => r matches Err(error) && error@ == failure(
                    self.range@,
                    unavailable(reason@),
                ),
                Ok(output) => if output.success {
                    r is Ok
                } else {
                    r matches Err(error) && error@ == failure(
                        self.range@,
                        "`"@ + from_expr@ + "` is not an ancestor of `"@ + after_dots(self.range@)
                            + "`"@,
                    )
                },
            },
    {
        let output = match self.run(outcome) {
            Ok(output) => output,
            Err(error) => {
                return Err(error);
            },
        };
        if !output.success {
            let mut cause = "`".to_owned();
            cause.append(from_expr);
            cause.append("` is not an ancestor of `");
            cause.append(self.to_expression().as_str());
            cause.append("`");
            return Err(HistoryError::new(self.range.as_str(), cause));
        }
        Ok(())
    }

    /// The right side of the requested range.
    pub fn to_expression(&self) -> (r: String)
        ensures
            r@ == after_dots(self.range@),
    {
        to_side(self.range.as_str())
    }

    /// The commits that reach an endpoint, in the order listed.
    pub fn revisions(&self, outcome: Outcome) -> (r: Result<Vec<Revision>, HistoryError>)
        ensures
            match outcome {
                Err(reason) => r matches Err(error) && error@ == failure(
                    self.range@,
                    unavailable(reason@),
                ),
                Ok(output) => {
                    let listing = lines(lossy(output.stdout@));
                    if !output.success {
                        r matches Err(error) && error@ == failure(
                            self.range@,
                            "Git history is unavailable"@,
                        )
                    } else if !all_revisions(listing) {
                        r matches Err(error) && error@ == failure(
                            self.range@,
                            "Git returned malformed commit metadata"@,
                        )
                    } else {
                        r matches Ok(revisions) && revisions.deep_view() == revisions_of(listing)
                    }
                },
            },
    {
        let output = match self.run(outcome) {
            Ok(output) => output,
            Err(error) => {
                return Err(error);
            },
        };
        if !output.success {
            return Err(
                HistoryError::new(self.range.as_str(), "Git history is unavailable".to_owned()),
            );
        }
        let text = text_from_utf8(output.stdout.as_slice());
        match read_revisions(text.as_str()) {
            Some(revisions) => Ok(revisions),
            None => Err(
                HistoryError::new(
                    self.range.as_str(),
                    "Git returned malformed commit metadata".to_owned(),
                ),
            ),
        }
    }

    /// Whether Git says that the repository is shallow.
    pub fn is_shallow(&self, outcome: Outcome) -> (r: Result<bool, HistoryError>)
        ensures
            match outcome {
                Err(reason) => r matches Err(error) && error@ == failure(
                    self.range@,
                    unavailable(reason@),
                ),
                Ok(output) => r matches Ok(shallow) && shallow == (output.success
                    && output.stdout@ == true_line()),
            },
    {
        let output = match self.run(outcome) {
            Ok(output) => output,
            Err(error) => {
                return Err(error);
            },
        };
        Ok(output.success && says_true(&output.stdout))
    }

    /// The file that lists the shallow boundaries, as Git names it from the root.
    pub fn shallow_file(&self, outcome: Outcome) -> (r: Result<String, HistoryError>)
        ensures
            match outcome {
                Err(reason) => r matches Err(error) && error@ == failure(
                    self.range@,
                    unavailable(reason@),
                ),
                Ok(output) => if output.success {
                    r matches Ok(path) && path@ == trim(lossy(output.stdout@))
                } else {
                    r matches Err(error) && error@ == failure(
                        self.range@,
                        "shallow boundary metadata is unavailable"@,
                    )
                },
            },
    {
        let output = match self.run(outcome) {
            Ok(output) => output,
            Err(error) => {
                return Err(error);
            },
        };
        if !output.success {
            return Err(
                HistoryError::new(
                    self.range.as_str(),
                    "shallow boundary metadata is unavailable".to_owned(),
                ),
            );
        }
        Ok(trimmed(text_from_utf8(output.stdout.as_slice()).as_str()))
    }

    /// The commits whose parents are cut off: none unless the repository is
    /// shallow, else one per line of their file. A file that could not be read
    /// is refused.
    pub fn shallow_boundaries(&self, shallow: bool, text: Option<String>) -> (r: Result<
        Vec<String>,
        HistoryError,
    >)
        ensures
            if !shallow {
                r matches Ok(commits) && commits@.len() == 0
            } else {
                match text {
                    Some(text) => r matches Ok(commits) && commits.deep_view() == lines(text@),
                    None => r matches Err(error) && error@ == failure(
                        self.range@,
                        "shallow boundary metadata is unavailable"@,
                    ),
                }
            },
    {
        if !shallow {
            return Ok(Vec::new());
        }
        match text {
            Some(text) => Ok(split_lines(text.as_str())),
            None => Err(
                HistoryError::new(
                    self.range.as_str(),
                    "shallow boundary metadata is unavailable".to_owned(),
                ),
            ),
        }
    }

    /// The records of a committed tree's listing.
    pub fn tree_records(&self, sha: &str, outcome: Outcome) -> (r: Result<
        Vec<Vec<u8>>,
        HistoryError,
    >)
        ensures
            match outcome {
                Err(reason) => r matches Err(error) && error@ == failure(
                    self.range@,
                    unavailable(reason@),
                ),
                Ok(output) => if output.success {
                    r matches Ok(records) && byte_views(records@) == non_empty(
                        pieces(output.stdout@, 0u8),
                    )
                } else {
                    r matches Err(error) && error@ == failure_at(
                        self.range@,
                        sha@,
                        "committed tree is unavailable"@,
                    )
                },
            },
    {
        let output = match self.run(outcome) {
            Ok(output) => output,
            Err(error) => {
                return Err(error);
            },
        };
        if !output.success {
            return Err(self.error_at(sha, "committed tree is unavailable"));
        }
        Ok(split_bytes_non_empty(&output.stdout, 0u8))
    }

    /// One file of a committed tree, and where it is written below `root`. A
    /// path that would leave the root is refused.
    pub fn materialize(&self, sha: &str, root: &str, record: &Vec<u8>) -> (r: Result<
        TreeEntry,
        HistoryError,
    >)
        ensures
            match tree_record_fields(lossy(record@)) {
                None => r matches Err(error) && error@ == failure_at(
                    self.range@,
                    sha@,
                    "Git returned malformed tree metadata"@,
                ),
                Some((mode, blob, path)) => if leads_down(self.style, path) {
                    r matches Ok(entry) && entry@ == (TreeEntryView {
                        path,
                        blob,
                        target: joined_to(self.style, root@, path),
                        link: mode == "120000"@,
                        executable: mode == "100755"@,
                    })
                } else {
                    r matches Err(error) && error@ == failure_at(
                        self.range@,
                        sha@,
                        "unsafe path in committed tree: "@ + path,
                    )
                },
            },
    {
        self.place_entry(sha, root, text_from_utf8(record.as_slice()).as_str())
    }

    /// The same for a record that is read as text.
    pub fn place_entry(&self, sha: &str, root: &str, record: &str) -> (r: Result<
        TreeEntry,
        HistoryError,
    >)
        ensures
            match tree_record_fields(record@) {
                None => r matches Err(error) && error@ == failure_at(
                    self.range@,
                    sha@,
                    "Git returned malformed tree metadata"@,
                ),
                Some((mode, blob, path)) => if leads_down(self.style, path) {
                    r matches Ok(entry) && entry@ == (TreeEntryView {
                        path,
                        blob,
                        target: joined_to(self.style, root@, path),
                        link: mode == "120000"@,
                        executable: mode == "100755"@,
                    })
                } else {
                    r matches Err(error) && error@ == failure_at(
                        self.range@,
                        sha@,
                        "unsafe path in committed tree: "@ + path,
                    )
                },
            },
    {
        let (metadata, path) = match cut_at(record, '\t') {
            Some(parts) => parts,
            None => {
                return Err(self.error_at(sha, "Git returned malformed tree metadata"));
            },
        };
        let fields = split_words(metadata.as_str());
        let ghost views = words(metadata@);
        assert(fields.deep_view() == views);
        if fields.len() < 3 {
            return Err(self.error_at(sha, "Git returned malformed tree metadata"));
        }
        assert(fields@[0]@ == views[0] && fields@[2]@ == views[2]);
        match safe_target(self.style, root, path.as_str()) {
            Some(target) => Ok(
                TreeEntry {
                    blob: fields[2].clone(),
                    target,
                    link: same(fields[0].as_str(), "120000"),
                    executable: same(fields[0].as_str(), "100755"),
                    path,
                },
            ),
            None => {
                let mut cause = "unsafe path in committed tree: ".to_owned();
                cause.append(path.as_str());
                Err(self.error_at(sha, cause.as_str()))
            },
        }
    }

    /// The renames between two commits.
    pub fn renames(&self, new: &str, outcome: Outcome) -> (r: Result<Vec<Rename>, HistoryError>)
        ensures
            match outcome {
                Err(reason) => r matches Err(error) && error@ == failure(
                    self.range@,
                    unavailable(reason@),
                ),
                Ok(output) => if !output.success {
                    r matches Err(error) && error@ == failure_at(
                        self.range@,
                        new@,
                        "rename evidence is unavailable"@,
                    )
                } else {
                    match rename_records(listing_fields(output.stdout@)) {
                        Some(renames) => r matches Ok(found) && found.deep_view() == renames,
                        None => r matches Err(error) && error@ == failure_at(
                            self.range@,
                            new@,
                            "Git returned malformed rename evidence"@,
                        ),
                    }
                },
            },
    {
        let output = match self.run(outcome) {
            Ok(output) => output,
            Err(error) => {
                return Err(error);
            },
        };
        if !output.success {
            return Err(self.error_at(new, "rename evidence is unavailable"));
        }
        let fields = read_listing(&output.stdout);
        match read_renames(&fields) {
            Some(renames) => Ok(renames),
            None => Err(self.error_at(new, "Git returned malformed rename evidence")),
        }
    }

    /// A refusal that names the offending revision.
    pub fn error_at(&self, revision: &str, cause: &str) -> (r: HistoryError)
        ensures
            r@ == failure_at(self.range@, revision@, cause@),
    {
        let mut text = "revision ".to_owned();
        text.append(revision);
        text.append(": ");
        text.append(cause);
        HistoryError::new(self.range.as_str(), text)
    }

    /// A refusal because a snapshot could not be written.
    pub fn io_at(&self, revision: &str, error: &str) -> (r: HistoryError)
        ensures
            r@ == failure_at(
                self.range@,
                revision@,
                "snapshot materialization failed: "@ + error@,
            ),
    {
        let mut cause = "snapshot materialization failed: ".to_owned();
        cause.append(error);
        self.error_at(revision, cause.as_str())
    }

    /// A refusal because the content of a file could not be had.
    pub fn blob_unavailable(&self, revision: &str, path: &str) -> (r: HistoryError)
        ensures
            r@ == failure_at(
                self.range@,
                revision@,
                "blob for "@ + path@ + " is unavailable"@,
            ),
    {
        let mut cause = "blob for ".to_owned();
        cause.append(path);
        cause.append(" is unavailable");
        self.error_at(revision, cause.as_str())
    }
}

/// Where a file of a tree is written below a root; `None` if its path would
/// leave it.
pub fn safe_target(style: PathStyle, root: &str, path: &str) -> (r: Option<String>)
    ensures
        r.deep_view() == (if leads_down(style, path@) {
            Some(joined_to(style, root@, path@))
        } else {
            None
        }),
{
    if only_down(style, path) {
        Some(join_path(style, root, path))
    } else {
        None
    }
}

/// A path that only leads down, joined to a root, is below it: the root's text
/// comes first, or, where that is taken as it is written, its prefix and names.
pub proof fn lemma_safe_target_stays_below(style: PathStyle, root: Text, path: Text)
    requires
        leads_down(style, path),
    ensures
        !names(style, path).contains(step_up()),
        if is_verbatim(style, root) && path.len() > 0 {
            joined_to(style, root, path) == root.take(prefix_len(style, root)) + separator(style)
                + join(names(style, root) + names(style, path), separator(style))
        } else {
            &&& joined_to(style, root, path).len() >= root.len()
            &&& joined_to(style, root, path).take(root.len() as int) == root
        },
{
    if !(is_verbatim(style, root) && path.len() > 0) {
        assert(joined_to(style, root, path).take(root.len() as int) =~= root);
    }
}

} // verus!
