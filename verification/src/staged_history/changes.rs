//! What Git is asked about the staged commit and its history, and how its
//! answers read.

use vstd::prelude::*;
use vstd::string::*;
use vstd::utf8::{decode_utf8, valid_utf8};

use crate::history::git::{begins, listing_fields, read_listing};
use crate::text::{
    first_is, integer, lines, lossy, parse_u64, same, split_lines, split_words, text_from_utf8,
    text_if_utf8, trim, trimmed, words, Text,
};

verus! {

// ---------------------------------------------------------------------------
// Changes
// ---------------------------------------------------------------------------

/// What a change does to the file at its new path.
#[derive(Clone, Copy, Debug, PartialEq, Eq, Structural)]
pub enum Status {
    Added,
    Copied,
    Deleted,
    Renamed,
    Modified,
    /// A change of type, or one that Git does not know better.
    Other,
}

/// One changed file between two trees.
#[derive(Debug)]
pub struct Change {
    pub status: Status,
    pub old_blob: String,
    pub old_path: String,
    pub new_path: String,
}

pub struct ChangeView {
    pub status: Status,
    pub old_blob: Text,
    pub old_path: Text,
    pub new_path: Text,
}

impl View for Change {
    type V = ChangeView;

    open spec fn view(&self) -> ChangeView {
        ChangeView {
            status: self.status,
            old_blob: self.old_blob@,
            old_path: self.old_path@,
            new_path: self.new_path@,
        }
    }
}

impl DeepView for Change {
    type V = ChangeView;

    open spec fn deep_view(&self) -> ChangeView {
        self@
    }
}

/// The status that a letter stands for.
pub open spec fn status_of(word: Text) -> Status {
    if begins(word, 'A') {
        Status::Added
    } else if begins(word, 'C') {
        Status::Copied
    } else if begins(word, 'D') {
        Status::Deleted
    } else if begins(word, 'R') {
        Status::Renamed
    } else if begins(word, 'M') {
        Status::Modified
    } else {
        Status::Other
    }
}

/// The change names two paths.
pub open spec fn has_two_paths(status: Status) -> bool {
    status == Status::Copied || status == Status::Renamed
}

/// The changes of a raw listing, up to the first that is malformed, and whether
/// there is none. A change is a colon, the modes, the blobs and the status, then
/// its path; a copy and a rename have the old path before the new one.
pub open spec fn changes_of(fields: Seq<Text>) -> (Seq<ChangeView>, bool)
    decreases fields.len(),
{
    if fields.len() == 0 {
        (Seq::empty(), true)
    } else {
        let meta = words(fields[0]);
        if !begins(fields[0], ':') || meta.len() < 5 {
            (Seq::empty(), false)
        } else {
            let status = status_of(meta[4]);
            let taken: int = if has_two_paths(status) {
                3
            } else {
                2
            };
            if fields.len() < taken {
                (Seq::empty(), false)
            } else {
                let change = ChangeView {
                    status,
                    old_blob: meta[2],
                    old_path: fields[1],
                    new_path: fields[taken - 1],
                };
                let (rest, whole) = changes_of(fields.skip(taken));
                (seq![change] + rest, whole)
            }
        }
    }
}

fn read_status(word: &str) -> (r: Status)
    ensures
        r == status_of(word@),
{
    if first_is(word, 'A') {
        Status::Added
    } else if first_is(word, 'C') {
        Status::Copied
    } else if first_is(word, 'D') {
        Status::Deleted
    } else if first_is(word, 'R') {
        Status::Renamed
    } else if first_is(word, 'M') {
        Status::Modified
    } else {
        Status::Other
    }
}

/// The changes of a raw listing, and whether all of it was read.
pub fn parse_changes(stdout: &Vec<u8>) -> (r: (Vec<Change>, bool))
    ensures
        (r.0.deep_view(), r.1) == changes_of(listing_fields(stdout@)),
{
    read_changes(&read_listing(stdout))
}

/// The changes that the fields of a raw listing name, and whether all of them
/// were read.
pub fn read_changes(fields: &Vec<String>) -> (r: (Vec<Change>, bool))
    ensures
        (r.0.deep_view(), r.1) == changes_of(fields.deep_view()),
{
    let ghost all = fields.deep_view();
    let n: usize = fields.len();
    let mut r: Vec<Change> = Vec::new();
    let mut i: usize = 0;
    assert(all.skip(0) =~= all);
    assert(r.deep_view() =~= Seq::<ChangeView>::empty());
    while i < n
        invariant
            n == fields@.len(),
            all == fields.deep_view(),
            i <= n,
            changes_of(all).0 =~= r.deep_view() + changes_of(all.skip(i as int)).0,
            changes_of(all).1 == changes_of(all.skip(i as int)).1,
        decreases n - i,
    {
        let ghost here = all.skip(i as int);
        assert(here[0] == fields@[i as int]@);
        let meta = split_words(fields[i].as_str());
        if !first_is(fields[i].as_str(), ':') || meta.len() < 5 {
            assert(changes_of(here).0 =~= Seq::<ChangeView>::empty());
            assert(changes_of(all).0 =~= r.deep_view());
            return (r, false);
        }
        assert(words(here[0])[4] == meta@[4]@);
        assert(words(here[0])[2] == meta@[2]@);
        let status = read_status(meta[4].as_str());
        let two: bool = status == Status::Copied || status == Status::Renamed;
        let taken: usize = if two {
            3
        } else {
            2
        };
        if n - i < taken {
            assert(changes_of(here).0 =~= Seq::<ChangeView>::empty());
            assert(changes_of(all).0 =~= r.deep_view());
            return (r, false);
        }
        assert(here[1] == fields@[i + 1]@ && here[taken - 1] == fields@[i + taken - 1]@);
        let change = Change {
            status,
            old_blob: meta[2].clone(),
            old_path: fields[i + 1].clone(),
            new_path: fields[i + taken - 1].clone(),
        };
        let ghost shown = change@;
        let ghost before = r.deep_view();
        r.push(change);
        assert(r.deep_view() =~= before.push(shown));
        assert(here.skip(taken as int) =~= all.skip(i + taken));
        assert(changes_of(here).0 =~= seq![shown] + changes_of(all.skip(i + taken)).0);
        i += taken;
    }
    assert(all.skip(i as int) =~= Seq::<Text>::empty());
    (r, true)
}

// ---------------------------------------------------------------------------
// The staged file's predecessor
// ---------------------------------------------------------------------------

/// A version of a file: the name it has and the object that holds it.
#[derive(Debug)]
pub struct Version {
    pub path: String,
    pub blob: String,
}

pub struct VersionView {
    pub path: Text,
    pub blob: Text,
}

impl View for Version {
    type V = VersionView;

    open spec fn view(&self) -> VersionView {
        VersionView { path: self.path@, blob: self.blob@ }
    }
}

impl DeepView for Version {
    type V = VersionView;

    open spec fn deep_view(&self) -> VersionView {
        self@
    }
}

impl Clone for Version {
    fn clone(&self) -> (r: Self)
        ensures
            r@ == self@,
    {
        Version { path: self.path.clone(), blob: self.blob.clone() }
    }
}

impl Version {
    /// Whether two versions are the same.
    pub fn equals(&self, other: &Version) -> (r: bool)
        ensures
            r == (self@ == other@),
    {
        self.path == other.path && self.blob == other.blob
    }
}

/// What the staged commit says of a file before it.
#[derive(Debug)]
pub enum Seed {
    /// The committed version that it edits.
    Version(Version),
    /// There was none: the file is new, or a copy.
    Absent,
}

pub enum SeedView {
    Version(VersionView),
    Absent,
}

impl View for Seed {
    type V = SeedView;

    open spec fn view(&self) -> SeedView {
        match self {
            Seed::Version(version) => SeedView::Version(version@),
            Seed::Absent => SeedView::Absent,
        }
    }
}

impl DeepView for Seed {
    type V = SeedView;

    open spec fn deep_view(&self) -> SeedView {
        self@
    }
}

/// What a staged change says of its file: a rename carries its identity, an
/// addition and a copy establish absence.
pub open spec fn seed_of(change: ChangeView) -> Option<SeedView> {
    match change.status {
        Status::Renamed | Status::Modified => Some(
            SeedView::Version(VersionView { path: change.old_path, blob: change.old_blob }),
        ),
        Status::Added | Status::Copied => Some(SeedView::Absent),
        Status::Deleted | Status::Other => None,
    }
}

/// What the staged changes say of the file at `path`; the last word counts.
pub open spec fn seed_at(changes: Seq<ChangeView>, path: Text) -> Option<SeedView>
    decreases changes.len(),
{
    if changes.len() == 0 {
        None
    } else if changes.last().new_path == path && seed_of(changes.last()) is Some {
        seed_of(changes.last())
    } else {
        seed_at(changes.drop_last(), path)
    }
}

fn read_seed(change: &Change) -> (r: Option<Seed>)
    ensures
        r.deep_view() == seed_of(change@),
{
    match change.status {
        Status::Renamed | Status::Modified => Some(
            Seed::Version(Version { path: change.old_path.clone(), blob: change.old_blob.clone() }),
        ),
        Status::Added | Status::Copied => Some(Seed::Absent),
        Status::Deleted | Status::Other => None,
    }
}

/// What the staged changes say of the file at a path.
pub fn staged_seed(changes: &Vec<Change>, path: &str) -> (r: Option<Seed>)
    ensures
        r.deep_view() == seed_at(changes.deep_view(), path@),
{
    let ghost all = changes.deep_view();
    let mut i: usize = changes.len();
    assert(all.take(i as int) =~= all);
    while i > 0
        invariant
            i <= changes@.len(),
            all == changes.deep_view(),
            seed_at(all, path@) == seed_at(all.take(i as int), path@),
        decreases i,
    {
        assert(all.take(i as int).drop_last() =~= all.take(i - 1));
        assert(all.take(i as int).last() == changes@[i - 1]@);
        if same(changes[i - 1].new_path.as_str(), path) {
            let seed = read_seed(&changes[i - 1]);
            if seed.is_some() {
                return seed;
            }
        }
        i -= 1;
    }
    None
}

/// A copied file is new: whatever it was copied from, it has no predecessor.
pub proof fn lemma_copy_establishes_absence(changes: Seq<ChangeView>, copy: ChangeView)
    requires
        copy.status == Status::Copied || copy.status == Status::Added,
    ensures
        seed_at(changes.push(copy), copy.new_path) == Some(SeedView::Absent),
{
}

// ---------------------------------------------------------------------------
// Commits
// ---------------------------------------------------------------------------

/// A commit and its parents.
#[derive(Debug)]
pub struct Commit {
    pub sha: String,
    pub parents: Vec<String>,
}

pub struct CommitView {
    pub sha: Text,
    pub parents: Seq<Text>,
}

impl View for Commit {
    type V = CommitView;

    open spec fn view(&self) -> CommitView {
        CommitView { sha: self.sha@, parents: self.parents.deep_view() }
    }
}

impl DeepView for Commit {
    type V = CommitView;

    open spec fn deep_view(&self) -> CommitView {
        self@
    }
}

/// The commits of a walk, one per line: a commit, then its parents.
pub open spec fn commits_of(listing: Seq<Text>) -> Seq<CommitView>
    decreases listing.len(),
{
    if listing.len() == 0 {
        Seq::empty()
    } else {
        let names = words(listing.last());
        let rest = commits_of(listing.drop_last());
        if names.len() == 0 {
            rest
        } else {
            rest.push(CommitView { sha: names[0], parents: names.skip(1) })
        }
    }
}

/// The commits of a walk.
pub fn parse_commits(stdout: &Vec<u8>) -> (r: Vec<Commit>)
    ensures
        r.deep_view() == commits_of(lines(lossy(stdout@))),
{
    read_commits(text_from_utf8(stdout.as_slice()).as_str())
}

/// The commits of a walk that is read as text.
pub fn read_commits(text: &str) -> (r: Vec<Commit>)
    ensures
        r.deep_view() == commits_of(lines(text@)),
{
    let listing = split_lines(text);
    let ghost all = listing.deep_view();
    let mut r: Vec<Commit> = Vec::new();
    let mut i: usize = 0;
    assert(r.deep_view() =~= commits_of(all.take(0)));
    while i < listing.len()
        invariant
            i <= listing@.len(),
            all == listing.deep_view(),
            r.deep_view() == commits_of(all.take(i as int)),
        decreases listing@.len() - i,
    {
        assert(all.take(i + 1).drop_last() =~= all.take(i as int));
        assert(all.take(i + 1).last() == listing@[i as int]@);
        let names = split_words(listing[i].as_str());
        if names.len() > 0 {
            let ghost here = r.deep_view();
            let commit = first_and_rest(&names);
            let ghost shown = commit@;
            r.push(commit);
            assert(r.deep_view() =~= here.push(shown));
        }
        i += 1;
    }
    assert(all.take(i as int) =~= all);
    r
}

fn first_and_rest(names: &Vec<String>) -> (r: Commit)
    requires
        names@.len() > 0,
    ensures
        r@ == (CommitView { sha: names.deep_view()[0], parents: names.deep_view().skip(1) }),
{
    let ghost all = names.deep_view();
    let mut parents: Vec<String> = Vec::new();
    let mut k: usize = 1;
    assert(parents.deep_view() =~= all.subrange(1, 1));
    while k < names.len()
        invariant
            1 <= k <= names@.len(),
            all == names.deep_view(),
            parents.deep_view() == all.subrange(1, k as int),
        decreases names@.len() - k,
    {
        let ghost here = parents.deep_view();
        parents.push(names[k].clone());
        assert(parents.deep_view() =~= here.push(all[k as int]));
        assert(parents.deep_view() =~= all.subrange(1, k + 1));
        k += 1;
    }
    assert(all.subrange(1, k as int) =~= all.skip(1));
    Commit { sha: names[0].clone(), parents }
}

/// The file that lists the shallow commits, as Git names it.
pub fn shallow_file(stdout: &Vec<u8>) -> (r: String)
    ensures
        r@ == trim(lossy(stdout@)),
{
    trimmed(text_from_utf8(stdout.as_slice()).as_str())
}

/// The commits whose parents are cut off, one per line of their file; without
/// the file there is none.
pub fn shallow_commits(text: Option<String>) -> (r: Vec<String>)
    ensures
        match text {
            Some(text) => r.deep_view() == lines(text@),
            None => r@.len() == 0,
        },
{
    match text {
        Some(text) => split_lines(text.as_str()),
        None => Vec::new(),
    }
}

// ---------------------------------------------------------------------------
// Objects
// ---------------------------------------------------------------------------

/// What Git says of an object before its content.
#[derive(Clone, Copy, Debug, PartialEq, Eq, Structural)]
pub enum BatchHeader {
    /// The object is not there.
    Missing,
    /// The content has this many bytes.
    Size(u64),
    /// The size cannot be read.
    Invalid,
}

/// The header `<object> <type> <size>`, or `<object> missing`.
pub open spec fn header_of(line: Text) -> BatchHeader {
    let fields = words(line);
    if fields.len() < 3 || fields.last() == "missing"@ {
        BatchHeader::Missing
    } else {
        match integer(fields[2]) {
            Some(size) => if !begins(fields[2], '-') && size <= u64::MAX {
                BatchHeader::Size(size as u64)
            } else {
                BatchHeader::Invalid
            },
            None => BatchHeader::Invalid,
        }
    }
}

/// What Git says of an object before its content.
pub fn parse_header(line: &str) -> (r: BatchHeader)
    ensures
        r == header_of(line@),
{
    let fields = split_words(line);
    let n: usize = fields.len();
    if n < 3 || same(fields[n - 1].as_str(), "missing") {
        return BatchHeader::Missing;
    }
    assert(words(line@)[2] == fields@[2]@);
    match parse_u64(fields[2].as_str()) {
        Some(size) => BatchHeader::Size(size),
        None => BatchHeader::Invalid,
    }
}

/// What the reader of objects says next.
pub enum Reply {
    /// Nothing more.
    End,
    /// The object is not there.
    Missing { rest: Seq<u8> },
    Content { content: Seq<u8>, rest: Seq<u8> },
    /// The reply cannot be read on.
    Broken,
}

/// How many bytes precede the first newline.
pub open spec fn line_end(bytes: Seq<u8>) -> int
    decreases bytes.len(),
{
    if bytes.len() == 0 || bytes[0] == 0x0a {
        0
    } else {
        1 + line_end(bytes.drop_first())
    }
}

/// What follows the first line.
pub open spec fn after_line(bytes: Seq<u8>) -> Seq<u8> {
    if line_end(bytes) < bytes.len() {
        bytes.skip(line_end(bytes) + 1)
    } else {
        Seq::empty()
    }
}

/// The header of a reply that says something.
pub open spec fn reply_header(reply: Seq<u8>) -> BatchHeader {
    let line = reply.take(line_end(reply));
    if valid_utf8(line) {
        header_of(decode_utf8(line))
    } else {
        BatchHeader::Invalid
    }
}

/// What the reader says next: a header line, then the content of the size that
/// it names, then a newline.
pub open spec fn next_reply(reply: Seq<u8>) -> Reply {
    let body = after_line(reply);
    if reply.len() == 0 {
        Reply::End
    } else {
        match reply_header(reply) {
            BatchHeader::Missing => Reply::Missing { rest: body },
            BatchHeader::Size(size) => if size < body.len() {
                Reply::Content {
                    content: body.take(size as int),
                    rest: body.skip(size as int + 1),
                }
            } else {
                Reply::Broken
            },
            BatchHeader::Invalid => Reply::Broken,
        }
    }
}

/// The contents that answer `requests` requests, in their order; none for an
/// object that is not there, and none past an early end. No request is answered
/// by a reply that cannot be read.
pub open spec fn contents_of(reply: Seq<u8>, requests: nat) -> Option<Seq<Option<Seq<u8>>>>
    decreases requests,
{
    if requests == 0 {
        Some(Seq::empty())
    } else {
        match next_reply(reply) {
            Reply::End => preceded(None, contents_of(reply, (requests - 1) as nat)),
            Reply::Missing { rest } => preceded(None, contents_of(rest, (requests - 1) as nat)),
            Reply::Content { content, rest } => preceded(
                Some(content),
                contents_of(rest, (requests - 1) as nat),
            ),
            Reply::Broken => None,
        }
    }
}

/// The answers with one more before them.
pub open spec fn preceded(
    first: Option<Seq<u8>>,
    answers: Option<Seq<Option<Seq<u8>>>>,
) -> Option<Seq<Option<Seq<u8>>>> {
    match answers {
        Some(answers) => Some(seq![first] + answers),
        None => None,
    }
}

proof fn lemma_line_end(bytes: Seq<u8>, end: int)
    requires
        0 <= end <= bytes.len(),
        forall|k: int| #![trigger bytes[k]] 0 <= k < end ==> bytes[k] != 0x0a,
        end < bytes.len() ==> bytes[end] == 0x0a,
    ensures
        line_end(bytes) == end,
    decreases bytes.len(),
{
    if bytes.len() > 0 && bytes[0] != 0x0a {
        let rest = bytes.drop_first();
        assert forall|k: int| #![trigger rest[k]] 0 <= k < end - 1 implies rest[k] != 0x0a by {
            assert(rest[k] == bytes[k + 1]);
        }
        lemma_line_end(rest, end - 1);
    }
}

/// Every request has its answer where the reply can be read.
pub proof fn lemma_every_request_is_answered(reply: Seq<u8>, requests: nat)
    ensures
        contents_of(reply, requests) matches Some(answers) ==> answers.len() == requests,
    decreases requests,
{
    if requests > 0 {
        match next_reply(reply) {
            Reply::End => {
                lemma_every_request_is_answered(reply, (requests - 1) as nat);
            },
            Reply::Missing { rest } => {
                lemma_every_request_is_answered(rest, (requests - 1) as nat);
            },
            Reply::Content { rest, .. } => {
                lemma_every_request_is_answered(rest, (requests - 1) as nat);
            },
            Reply::Broken => {},
        }
    }
}

/// A framed object is read back whole, whatever bytes it holds, and what follows
/// it is left as it is.
pub proof fn lemma_framed_content_is_read_back(
    header: Seq<u8>,
    content: Seq<u8>,
    rest: Seq<u8>,
)
    requires
        forall|k: int| #![trigger header[k]] 0 <= k < header.len() ==> header[k] != 0x0a,
        valid_utf8(header),
        content.len() <= u64::MAX,
        header_of(decode_utf8(header)) == BatchHeader::Size(content.len() as u64),
    ensures
        next_reply(header + seq![0x0au8] + content + seq![0x0au8] + rest) == (Reply::Content {
            content,
            rest,
        }),
{
    let reply = header + seq![0x0au8] + content + seq![0x0au8] + rest;
    let n = header.len() as int;
    assert forall|k: int| #![trigger reply[k]] 0 <= k < n implies reply[k] != 0x0a by {
        assert(reply[k] == header[k]);
    }
    lemma_line_end(reply, n);
    assert(reply.take(n) =~= header);
    let body = reply.skip(n + 1);
    assert(body.take(content.len() as int) =~= content);
    assert(body.skip(content.len() as int + 1) =~= rest);
}

/// The bytes from `from` up to `to`.
fn bytes_between(bytes: &Vec<u8>, from: usize, to: usize) -> (r: Vec<u8>)
    requires
        from <= to <= bytes@.len(),
    ensures
        r@ == bytes@.subrange(from as int, to as int),
{
    let mut r: Vec<u8> = Vec::new();
    let mut i: usize = from;
    while i < to
        invariant
            from <= i <= to <= bytes@.len(),
            r@ == bytes@.subrange(from as int, i as int),
        decreases to - i,
    {
        r.push(bytes[i]);
        assert(r@ =~= bytes@.subrange(from as int, i + 1));
        i += 1;
    }
    r
}

/// Where the line that starts at `from` ends.
fn line_end_from(bytes: &Vec<u8>, from: usize) -> (r: usize)
    requires
        from <= bytes@.len(),
    ensures
        from <= r <= bytes@.len(),
        r == from + line_end(bytes@.skip(from as int)),
{
    let ghost rest = bytes@.skip(from as int);
    let mut i: usize = from;
    while i < bytes.len() && bytes[i] != 0x0a
        invariant
            from <= i <= bytes@.len(),
            rest == bytes@.skip(from as int),
            forall|k: int| #![trigger rest[k]] 0 <= k < i - from ==> rest[k] != 0x0a,
        decreases bytes@.len() - i,
    {
        assert(rest[i - from] == bytes@[i as int]);
        i += 1;
    }
    proof {
        if i < bytes@.len() {
            assert(rest[i - from] == bytes@[i as int]);
        }
        lemma_line_end(rest, i - from);
    }
    i
}

/// Reads what the reader of objects says from `at` on: the content, where there
/// is one, and where the rest starts. `None` if the reply cannot be read on.
fn read_reply(reply: &Vec<u8>, at: usize) -> (r: Option<(Option<Vec<u8>>, usize)>)
    requires
        at <= reply@.len(),
    ensures
        r matches Some((_, next)) ==> next <= reply@.len(),
        match next_reply(reply@.skip(at as int)) {
            Reply::End => r matches Some((content, next)) && content is None && next == at,
            Reply::Missing { rest } => r matches Some((content, next)) && content is None
                && reply@.skip(next as int) == rest,
            Reply::Content { content: wanted, rest } => r matches Some((content, next))
                && content.deep_view() == Some(wanted) && reply@.skip(next as int) == rest,
            Reply::Broken => r is None,
        },
{
    let ghost here = reply@.skip(at as int);
    let n: usize = reply.len();
    if at == n {
        return Some((None, at));
    }
    let end: usize = line_end_from(reply, at);
    let line = bytes_between(reply, at, end);
    assert(line@ =~= here.take(end - at));
    let header = match text_if_utf8(line) {
        Some(text) => parse_header(text.as_str()),
        None => BatchHeader::Invalid,
    };
    let body: usize = if end < n {
        end + 1
    } else {
        end
    };
    assert(reply@.skip(body as int) =~= after_line(here));
    match header {
        BatchHeader::Missing => Some((None, body)),
        BatchHeader::Invalid => None,
        BatchHeader::Size(size) => {
            if size >= (n - body) as u64 {
                return None;
            }
            let stop: usize = body + size as usize;
            let content = bytes_between(reply, body, stop);
            proof {
                assert(content@ =~= after_line(here).take(size as int));
                assert(content.deep_view() =~= content@);
                assert(reply@.skip(stop + 1) =~= after_line(here).skip(size as int + 1));
            }
            Some((Some(content), stop + 1))
        },
    }
}

/// The contents that the reader of objects gave for so many requests.
pub fn parse_contents(reply: &Vec<u8>, requests: usize) -> (r: Option<Vec<Option<Vec<u8>>>>)
    ensures
        r.deep_view() == contents_of(reply@, requests as nat),
{
    let ghost whole = contents_of(reply@, requests as nat);
    let mut answers: Vec<Option<Vec<u8>>> = Vec::new();
    let mut at: usize = 0;
    proof {
        assert(reply@.skip(0) =~= reply@);
        if let Some(all) = whole {
            assert(answers.deep_view() + all =~= all);
        }
    }
    while answers.len() < requests
        invariant
            at <= reply@.len(),
            answers@.len() <= requests,
            whole == contents_of(reply@, requests as nat),
            whole == (match contents_of(
                reply@.skip(at as int),
                (requests - answers@.len()) as nat,
            ) {
                Some(more) => Some(answers.deep_view() + more),
                None => None,
            }),
        decreases requests - answers@.len(),
    {
        let ghost here = answers.deep_view();
        let ghost left = (requests - answers@.len() - 1) as nat;
        match read_reply(reply, at) {
            Some((content, next)) => {
                let ghost shown = content.deep_view();
                answers.push(content);
                at = next;
                proof {
                    assert(answers.deep_view() =~= here.push(shown));
                    if let Some(more) = contents_of(reply@.skip(at as int), left) {
                        assert(here + (seq![shown] + more) =~= here.push(shown) + more);
                    }
                }
            },
            None => {
                return None;
            },
        }
    }
    assert(answers.deep_view() + Seq::<Option<Seq<u8>>>::empty() =~= answers.deep_view());
    Some(answers)
}

// ---------------------------------------------------------------------------
// What Git is asked
// ---------------------------------------------------------------------------

/// Asks for the staged changes, with renames.
pub fn staged_args() -> (r: Vec<String>)
    ensures
        r.deep_view() == seq!["diff"@, "--cached"@, "--raw"@, "-z"@, "--no-abbrev"@, "--find-renames"@, "--diff-filter=ACMR"@],
{
    let mut r: Vec<String> = Vec::new();
    r.push("diff".to_owned());
    r.push("--cached".to_owned());
    r.push("--raw".to_owned());
    r.push("-z".to_owned());
    r.push("--no-abbrev".to_owned());
    r.push("--find-renames".to_owned());
    r.push("--diff-filter=ACMR".to_owned());
    assert(r.deep_view() =~= seq!["diff"@, "--cached"@, "--raw"@, "-z"@, "--no-abbrev"@, "--find-renames"@, "--diff-filter=ACMR"@]);
    r
}

/// Asks for every commit that `HEAD` reaches, children first.
pub fn history_args() -> (r: Vec<String>)
    ensures
        r.deep_view() == seq!["rev-list"@, "--topo-order"@, "--parents"@, "HEAD"@, "--"@],
{
    let mut r: Vec<String> = Vec::new();
    r.push("rev-list".to_owned());
    r.push("--topo-order".to_owned());
    r.push("--parents".to_owned());
    r.push("HEAD".to_owned());
    r.push("--".to_owned());
    assert(r.deep_view() =~= seq!["rev-list"@, "--topo-order"@, "--parents"@, "HEAD"@, "--"@]);
    r
}

/// Asks for the changes from a parent to its child, with renames.
pub fn changes_args(parent: &str, child: &str) -> (r: Vec<String>)
    ensures
        r.deep_view() == seq!["diff-tree"@, "-r"@, "-M"@, "--raw"@, "-z"@, "--no-abbrev"@, parent@, child@, "--"@],
{
    let mut r: Vec<String> = Vec::new();
    r.push("diff-tree".to_owned());
    r.push("-r".to_owned());
    r.push("-M".to_owned());
    r.push("--raw".to_owned());
    r.push("-z".to_owned());
    r.push("--no-abbrev".to_owned());
    r.push(parent.to_owned());
    r.push(child.to_owned());
    r.push("--".to_owned());
    assert(r.deep_view() =~= seq!["diff-tree"@, "-r"@, "-M"@, "--raw"@, "-z"@, "--no-abbrev"@, parent@, child@, "--"@]);
    r
}

/// Asks where the shallow commits are listed.
pub fn shallow_args() -> (r: Vec<String>)
    ensures
        r.deep_view() == seq!["rev-parse"@, "--path-format=absolute"@, "--git-path"@, "shallow"@],
{
    let mut r: Vec<String> = Vec::new();
    r.push("rev-parse".to_owned());
    r.push("--path-format=absolute".to_owned());
    r.push("--git-path".to_owned());
    r.push("shallow".to_owned());
    assert(r.deep_view() =~= seq!["rev-parse"@, "--path-format=absolute"@, "--git-path"@, "shallow"@]);
    r
}

/// Asks for objects, one after another.
pub fn batch_args() -> (r: Vec<String>)
    ensures
        r.deep_view() == seq!["cat-file"@, "--batch"@],
{
    let mut r: Vec<String> = Vec::new();
    r.push("cat-file".to_owned());
    r.push("--batch".to_owned());
    assert(r.deep_view() =~= seq!["cat-file"@, "--batch"@]);
    r
}

} // verus!
