//! What may stand before the names of a path, as the platform reads it: a
//! prefix, a root, or a leading `.`.

use vstd::prelude::*;
use vstd::string::*;

use crate::text::{chars_of, same, text_range, Text};

verus! {

/// How a platform reads the text of a path.
#[derive(Clone, Copy, Debug, PartialEq, Eq, Structural)]
pub enum PathStyle {
    /// `/` separates names.
    Unix,
    /// `\` separates names too, and a drive, share or device may stand before
    /// them.
    Windows,
}

// ---------------------------------------------------------------------------
// Parts
// ---------------------------------------------------------------------------

/// What separates the parts of a path.
#[derive(Clone, Copy, Debug, PartialEq, Eq, Structural)]
pub enum Separators {
    Slash,
    Both,
    Backslash,
}

pub open spec fn is_separator(by: Separators, c: char) -> bool {
    match by {
        Separators::Slash => c == '/',
        Separators::Both => c == '/' || c == '\\',
        Separators::Backslash => c == '\\',
    }
}

/// What separates the parts of a path unless its prefix says otherwise.
pub open spec fn usual(style: PathStyle) -> Separators {
    match style {
        PathStyle::Unix => Separators::Slash,
        PathStyle::Windows => Separators::Both,
    }
}

/// How many characters precede the first separator.
pub open spec fn first_len(by: Separators, s: Text) -> int
    decreases s.len(),
{
    if s.len() == 0 || is_separator(by, s[0]) {
        0
    } else {
        1 + first_len(by, s.drop_first())
    }
}

/// What precedes the first separator.
pub open spec fn first_part(by: Separators, s: Text) -> Text {
    s.take(first_len(by, s))
}

/// What follows the first separator.
pub open spec fn after_part(by: Separators, s: Text) -> Text {
    if first_len(by, s) < s.len() {
        s.skip(first_len(by, s) + 1)
    } else {
        Seq::empty()
    }
}

/// The first separator ends the first part.
pub proof fn lemma_first_len(by: Separators, s: Text)
    ensures
        0 <= first_len(by, s) <= s.len(),
        first_len(by, s) < s.len() ==> is_separator(by, s[first_len(by, s)]),
        forall|k: int|
            #![trigger s[k]]
            0 <= k < first_len(by, s) ==> !is_separator(by, s[k]),
    decreases s.len(),
{
    if s.len() > 0 && !is_separator(by, s[0]) {
        let rest = s.drop_first();
        lemma_first_len(by, rest);
        assert forall|k: int| #![trigger s[k]] 0 <= k < first_len(by, s) implies !is_separator(
            by,
            s[k],
        ) by {
            if k > 0 {
                assert(rest[k - 1] == s[k]);
            }
        }
    }
}

/// Only the first separator does.
pub proof fn lemma_first_len_is(by: Separators, s: Text, n: int)
    requires
        0 <= n <= s.len(),
        n < s.len() ==> is_separator(by, s[n]),
        forall|k: int| #![trigger s[k]] 0 <= k < n ==> !is_separator(by, s[k]),
    ensures
        first_len(by, s) == n,
{
    lemma_first_len(by, s);
    let m = first_len(by, s);
    if m < n {
        assert(!is_separator(by, s[m]));
    } else if n < m {
        assert(!is_separator(by, s[n]));
    }
}

pub(crate) fn separates(by: Separators, c: char) -> (r: bool)
    ensures
        r == is_separator(by, c),
{
    match by {
        Separators::Slash => c == '/',
        Separators::Both => c == '/' || c == '\\',
        Separators::Backslash => c == '\\',
    }
}

/// What usually separates the parts of a path.
fn usual_of(style: PathStyle) -> (r: Separators)
    ensures
        r == usual(style),
{
    match style {
        PathStyle::Unix => Separators::Slash,
        PathStyle::Windows => Separators::Both,
    }
}

/// Where the part that starts at `from` ends.
pub(crate) fn part_end(by: Separators, chars: &Vec<char>, from: usize) -> (r: usize)
    requires
        from <= chars@.len(),
    ensures
        from <= r <= chars@.len(),
        r == from + first_len(by, chars@.skip(from as int)),
        chars@.subrange(from as int, r as int) == first_part(by, chars@.skip(from as int)),
{
    let ghost rest = chars@.skip(from as int);
    let mut i: usize = from;
    while i < chars.len() && !separates(by, chars[i])
        invariant
            from <= i <= chars@.len(),
            rest == chars@.skip(from as int),
            forall|k: int|
                #![trigger rest[k]]
                0 <= k < i - from ==> !is_separator(by, rest[k]),
        decreases chars@.len() - i,
    {
        assert(rest[i - from] == chars@[i as int]);
        i += 1;
    }
    proof {
        if i < chars@.len() {
            assert(rest[i - from] == chars@[i as int]);
        }
        lemma_first_len_is(by, rest, i - from);
        assert(chars@.subrange(from as int, i as int) =~= rest.take(i - from));
    }
    i
}

/// Where the part after the one that ends at `end` starts.
pub(crate) fn part_after(by: Separators, chars: &Vec<char>, Ghost(from): Ghost<int>, end: usize) -> (r:
    usize)
    requires
        0 <= from <= end <= chars@.len(),
        end == from + first_len(by, chars@.skip(from)),
    ensures
        end <= r <= chars@.len(),
        end < chars@.len() ==> r == end + 1,
        chars@.skip(r as int) == after_part(by, chars@.skip(from)),
{
    let r: usize = if end < chars.len() {
        end + 1
    } else {
        end
    };
    assert(chars@.skip(r as int) =~= after_part(by, chars@.skip(from)));
    r
}

// ---------------------------------------------------------------------------
// Prefixes
// ---------------------------------------------------------------------------

#[derive(Clone, Copy, Debug, PartialEq, Eq, Structural)]
pub enum PrefixKind {
    Absent,
    /// `C:`
    Disk,
    /// `\\server\share`
    Share,
    /// `\\.\device`
    Device,
    /// `\\?\name`
    Verbatim,
    /// `\\?\C:`
    VerbatimDisk,
    /// `\\?\UNC\server\share`
    VerbatimShare,
}

/// A prefix: its kind with its drive, in upper case, its name, or its server
/// and share.
#[derive(Debug)]
pub struct Prefix {
    pub kind: PrefixKind,
    pub first: String,
    pub second: String,
}

#[verifier::ext_equal]
pub struct PrefixView {
    pub kind: PrefixKind,
    pub first: Text,
    pub second: Text,
}

impl View for Prefix {
    type V = PrefixView;

    open spec fn view(&self) -> PrefixView {
        PrefixView { kind: self.kind, first: self.first@, second: self.second@ }
    }
}

pub open spec fn absent() -> PrefixView {
    PrefixView { kind: PrefixKind::Absent, first: Seq::empty(), second: Seq::empty() }
}

/// The text starts with a drive.
pub open spec fn has_drive(s: Text) -> bool {
    s.len() >= 2 && s[1] == ':' && ('a' <= s[0] <= 'z' || 'A' <= s[0] <= 'Z')
}

/// The letter of a drive, in upper case.
pub open spec fn drive_letter(c: char) -> char {
    if 'a' <= c <= 'z' {
        (c as u8 - 32) as char
    } else {
        c
    }
}

/// What is said after two separators: a server and its share, each in a part.
pub open spec fn share_of(by: Separators, kind: PrefixKind, s: Text) -> PrefixView {
    PrefixView {
        kind,
        first: first_part(by, s),
        second: first_part(by, after_part(by, s)),
    }
}

/// The path starts with two separators.
pub open spec fn is_doubled(path: Text) -> bool {
    path.len() >= 2 && is_separator(Separators::Both, path[0]) && is_separator(
        Separators::Both,
        path[1],
    )
}

/// The path starts with `\\?\`, written with backslashes alone.
pub open spec fn is_verbatim_mark(path: Text) -> bool {
    path.len() >= 4 && path[0] == '\\' && path[1] == '\\' && path[2] == '?' && path[3] == '\\'
}

/// The path starts with `\\.\`.
pub open spec fn is_device_mark(path: Text) -> bool {
    path.len() >= 4 && is_doubled(path) && path[2] == '.' && is_separator(
        Separators::Both,
        path[3],
    )
}

/// The text starts with `UNC\`.
pub open spec fn is_share_mark(s: Text) -> bool {
    s.len() >= 4 && s[0] == 'U' && s[1] == 'N' && s[2] == 'C' && is_separator(
        Separators::Both,
        s[3],
    )
}

/// What a verbatim path says after its mark. `/` separates nothing there.
pub open spec fn verbatim_prefix(s: Text) -> PrefixView {
    if is_share_mark(s) {
        share_of(Separators::Backslash, PrefixKind::VerbatimShare, s.skip(4))
    } else if has_drive(s) && (s.len() == 2 || is_separator(Separators::Both, s[2])) {
        PrefixView {
            kind: PrefixKind::VerbatimDisk,
            first: seq![drive_letter(s[0])],
            second: Seq::empty(),
        }
    } else {
        PrefixView {
            kind: PrefixKind::Verbatim,
            first: first_part(Separators::Backslash, s),
            second: Seq::empty(),
        }
    }
}

/// The prefix of a path on Windows.
pub open spec fn windows_prefix(path: Text) -> PrefixView {
    if is_verbatim_mark(path) {
        verbatim_prefix(path.skip(4))
    } else if is_device_mark(path) {
        PrefixView {
            kind: PrefixKind::Device,
            first: first_part(Separators::Both, path.skip(4)),
            second: Seq::empty(),
        }
    } else if is_doubled(path) {
        let share = share_of(Separators::Both, PrefixKind::Share, path.skip(2));
        if share.first.len() > 0 && share.second.len() > 0 {
            share
        } else {
            absent()
        }
    } else if has_drive(path) {
        PrefixView {
            kind: PrefixKind::Disk,
            first: seq![drive_letter(path[0])],
            second: Seq::empty(),
        }
    } else {
        absent()
    }
}

/// The prefix of a path.
pub open spec fn prefix(style: PathStyle, path: Text) -> PrefixView {
    match style {
        PathStyle::Unix => absent(),
        PathStyle::Windows => windows_prefix(path),
    }
}

/// A second part with the separator before it.
pub open spec fn second_len(p: PrefixView) -> int {
    if p.second.len() > 0 {
        1 + p.second.len() as int
    } else {
        0
    }
}

/// How much of a path its prefix takes.
pub open spec fn len_of(p: PrefixView) -> int {
    match p.kind {
        PrefixKind::Absent => 0,
        PrefixKind::Disk => 2,
        PrefixKind::Share => 2 + p.first.len() + second_len(p),
        PrefixKind::Device => 4 + p.first.len() as int,
        PrefixKind::Verbatim => 4 + p.first.len() as int,
        PrefixKind::VerbatimDisk => 6,
        PrefixKind::VerbatimShare => 8 + p.first.len() + second_len(p),
    }
}

pub open spec fn prefix_len(style: PathStyle, path: Text) -> int {
    len_of(prefix(style, path))
}

/// The path is taken as it is written: `/` separates nothing and `.` is a name.
pub open spec fn is_verbatim(style: PathStyle, path: Text) -> bool {
    match prefix(style, path).kind {
        PrefixKind::Verbatim | PrefixKind::VerbatimDisk | PrefixKind::VerbatimShare => true,
        _ => false,
    }
}

/// What separates the parts of a path.
pub open spec fn separators(style: PathStyle, path: Text) -> Separators {
    if is_verbatim(style, path) {
        Separators::Backslash
    } else {
        usual(style)
    }
}

proof fn lemma_share_len(by: Separators, kind: PrefixKind, s: Text)
    ensures
        share_of(by, kind, s).first.len() + second_len(share_of(by, kind, s)) <= s.len(),
{
    lemma_first_len(by, s);
    lemma_first_len(by, after_part(by, s));
}

/// The prefix is the beginning of the path.
pub proof fn lemma_prefix_len(style: PathStyle, path: Text)
    ensures
        0 <= prefix_len(style, path) <= path.len(),
{
    if style == PathStyle::Windows {
        if is_verbatim_mark(path) {
            let s = path.skip(4);
            if is_share_mark(s) {
                lemma_share_len(Separators::Backslash, PrefixKind::VerbatimShare, s.skip(4));
            }
            lemma_first_len(Separators::Backslash, s);
        } else if is_device_mark(path) {
            lemma_first_len(Separators::Both, path.skip(4));
        } else if is_doubled(path) {
            lemma_share_len(Separators::Both, PrefixKind::Share, path.skip(2));
        }
    }
}

fn drive_at(chars: &Vec<char>, at: usize) -> (r: Option<String>)
    requires
        at <= chars@.len(),
    ensures
        r is Some <==> has_drive(chars@.skip(at as int)),
        r matches Some(drive) ==> drive@ == seq![drive_letter(chars@.skip(at as int)[0])],
{
    let n: usize = chars.len();
    if n - at < 2 || chars[at + 1] != ':' {
        return None;
    }
    let c = chars[at];
    assert(chars@.skip(at as int)[0] == c);
    let upper = if 'a' <= c && c <= 'z' {
        (c as u8 - 32) as char
    } else if 'A' <= c && c <= 'Z' {
        c
    } else {
        return None;
    };
    let mut drive = String::new();
    drive.push(upper);
    assert(drive@ =~= seq![drive_letter(c)]);
    Some(drive)
}

fn share_at(by: Separators, kind: PrefixKind, chars: &Vec<char>, at: usize) -> (r: Prefix)
    requires
        at <= chars@.len(),
    ensures
        r@ == share_of(by, kind, chars@.skip(at as int)),
{
    let end: usize = part_end(by, chars, at);
    let next: usize = part_after(by, chars, Ghost(at as int), end);
    let stop: usize = part_end(by, chars, next);
    Prefix { kind, first: text_range(chars, at, end), second: text_range(chars, next, stop) }
}

fn named(kind: PrefixKind, first: String) -> (r: Prefix)
    ensures
        r@ == (PrefixView { kind, first: first@, second: Seq::empty() }),
{
    let r = Prefix { kind, first, second: String::new() };
    assert(r.second@ =~= Seq::<char>::empty());
    r
}

fn verbatim_prefix_of(chars: &Vec<char>) -> (r: Prefix)
    requires
        chars@.len() >= 4,
    ensures
        r@ == verbatim_prefix(chars@.skip(4)),
{
    let n: usize = chars.len();
    let ghost s = chars@.skip(4);
    if n >= 8 && chars[4] == 'U' && chars[5] == 'N' && chars[6] == 'C' && separates(
        Separators::Both,
        chars[7],
    ) {
        assert(s.skip(4) =~= chars@.skip(8));
        return share_at(Separators::Backslash, PrefixKind::VerbatimShare, chars, 8);
    }
    match drive_at(chars, 4) {
        Some(drive) => {
            if n == 6 || separates(Separators::Both, chars[6]) {
                return named(PrefixKind::VerbatimDisk, drive);
            }
        },
        None => {},
    }
    let end: usize = part_end(Separators::Backslash, chars, 4);
    named(PrefixKind::Verbatim, text_range(chars, 4, end))
}

/// The prefix of a path.
fn prefix_of(style: PathStyle, chars: &Vec<char>) -> (r: Prefix)
    ensures
        r@ == prefix(style, chars@),
{
    let n: usize = chars.len();
    let none = named(PrefixKind::Absent, String::new());
    assert(none@ =~= absent());
    match style {
        PathStyle::Unix => {
            return none;
        },
        PathStyle::Windows => {},
    }
    if n >= 4 && chars[0] == '\\' && chars[1] == '\\' && chars[2] == '?' && chars[3] == '\\' {
        return verbatim_prefix_of(chars);
    }
    let doubled: bool = n >= 2 && separates(Separators::Both, chars[0]) && separates(
        Separators::Both,
        chars[1],
    );
    if doubled && n >= 4 && chars[2] == '.' && separates(Separators::Both, chars[3]) {
        let end: usize = part_end(Separators::Both, chars, 4);
        return named(PrefixKind::Device, text_range(chars, 4, end));
    }
    if doubled {
        let share = share_at(Separators::Both, PrefixKind::Share, chars, 2);
        if share.first.as_str().is_empty() || share.second.as_str().is_empty() {
            return none;
        }
        return share;
    }
    assert(chars@.skip(0) =~= chars@);
    match drive_at(chars, 0) {
        Some(drive) => named(PrefixKind::Disk, drive),
        None => none,
    }
}

// ---------------------------------------------------------------------------
// Starts
// ---------------------------------------------------------------------------

/// A separator follows the prefix.
pub open spec fn is_rooted(style: PathStyle, path: Text) -> bool {
    let at = prefix_len(style, path);
    path.len() > at && is_separator(usual(style), path[at])
}

/// The path, after its drive where it has one, starts with a `.` part.
pub open spec fn is_dotted(style: PathStyle, path: Text) -> bool {
    let at = prefix_len(style, path);
    &&& prefix(style, path).kind == PrefixKind::Absent || prefix(style, path).kind
        == PrefixKind::Disk
    &&& path.len() > at
    &&& path[at] == '.'
    &&& path.len() == at + 1 || is_separator(usual(style), path[at + 1])
}

/// How much of the path stands before its first name: its prefix, and its root
/// or leading `.`.
pub open spec fn lead_len(style: PathStyle, path: Text) -> int {
    prefix_len(style, path) + (if is_rooted(style, path) || is_dotted(style, path) {
        1int
    } else {
        0
    })
}

/// Where a path starts.
#[derive(Debug)]
pub struct Start {
    pub prefix: Prefix,
    /// At a root. Shares and devices have one that need not be written.
    pub rooted: bool,
    /// At the current directory, by a leading `.`.
    pub here: bool,
}

#[verifier::ext_equal]
pub struct StartView {
    pub prefix: PrefixView,
    pub rooted: bool,
    pub here: bool,
}

impl View for Start {
    type V = StartView;

    open spec fn view(&self) -> StartView {
        StartView { prefix: self.prefix@, rooted: self.rooted, here: self.here }
    }
}

/// Where a path starts. A drive hides a `.` behind it.
pub open spec fn start(style: PathStyle, path: Text) -> StartView {
    let p = prefix(style, path);
    StartView {
        prefix: p,
        rooted: is_rooted(style, path) || p.kind == PrefixKind::Share || p.kind
            == PrefixKind::Device,
        here: is_dotted(style, path) && p.kind == PrefixKind::Absent,
    }
}

/// The path starts with its first name.
pub open spec fn starts_plainly(style: PathStyle, path: Text) -> bool {
    let s = start(style, path);
    s.prefix.kind == PrefixKind::Absent && !s.rooted && !s.here
}

/// What a path starts with, how long its prefix and its whole lead are, and
/// what separates its parts.
pub(crate) struct Lead {
    pub start: Start,
    pub prefix: usize,
    pub len: usize,
    pub by: Separators,
}

impl Lead {
    pub(crate) open spec fn leads(self, style: PathStyle, path: Text) -> bool {
        &&& self.start@ == start(style, path)
        &&& self.prefix == prefix_len(style, path)
        &&& self.len == lead_len(style, path)
        &&& self.by == separators(style, path)
        &&& self.prefix <= self.len <= path.len()
    }
}

fn prefix_len_of(p: &Prefix, Ghost(path): Ghost<Text>) -> (r: usize)
    requires
        0 <= len_of(p@) <= path.len() <= usize::MAX,
    ensures
        r == len_of(p@),
{
    let first: usize = chars_of(p.first.as_str()).len();
    let second: usize = chars_of(p.second.as_str()).len();
    match p.kind {
        PrefixKind::Absent => 0,
        PrefixKind::Disk => 2,
        PrefixKind::VerbatimDisk => 6,
        PrefixKind::Device | PrefixKind::Verbatim => 4 + first,
        PrefixKind::Share => if second > 0 {
            3 + first + second
        } else {
            2 + first
        },
        PrefixKind::VerbatimShare => if second > 0 {
            9 + first + second
        } else {
            8 + first
        },
    }
}

/// How a path starts.
pub(crate) fn lead_of(style: PathStyle, chars: &Vec<char>) -> (r: Lead)
    ensures
        r.leads(style, chars@),
{
    let n: usize = chars.len();
    let prefix = prefix_of(style, chars);
    proof {
        lemma_prefix_len(style, chars@);
    }
    let at: usize = prefix_len_of(&prefix, Ghost(chars@));
    let usual = usual_of(style);
    let verbatim: bool = match prefix.kind {
        PrefixKind::Verbatim | PrefixKind::VerbatimDisk | PrefixKind::VerbatimShare => true,
        _ => false,
    };
    let by = if verbatim {
        Separators::Backslash
    } else {
        usual
    };
    let absent: bool = prefix.kind == PrefixKind::Absent;
    let rooted: bool = n > at && separates(usual, chars[at]);
    let dotted: bool = (absent || prefix.kind == PrefixKind::Disk) && n > at && chars[at] == '.'
        && (n == at + 1 || separates(usual, chars[at + 1]));
    let len: usize = if rooted || dotted {
        at + 1
    } else {
        at
    };
    let implied: bool = prefix.kind == PrefixKind::Share || prefix.kind == PrefixKind::Device;
    Lead {
        start: Start { prefix, rooted: rooted || implied, here: dotted && absent },
        prefix: at,
        len,
        by,
    }
}

/// Whether two paths start at the same place.
pub(crate) fn same_start(a: &Start, b: &Start) -> (r: bool)
    ensures
        r == (a@ == b@),
{
    let r: bool = a.prefix.kind == b.prefix.kind && same(
        a.prefix.first.as_str(),
        b.prefix.first.as_str(),
    ) && same(a.prefix.second.as_str(), b.prefix.second.as_str()) && a.rooted == b.rooted
        && a.here == b.here;
    assert(r ==> a@ =~= b@);
    r
}

} // verus!
