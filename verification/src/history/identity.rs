//! Identity across renames. Only evidence carries an identity: a rename that
//! Git confirmed for one file, or a proven substitution of a whole prefix.

use vstd::prelude::*;
use vstd::string::*;

use super::data::{Address, AddressView, FindingAddress, FindingAddressView, MovementKind};
use super::git::{Rename, RenameKind, RenameView};
use crate::path_start::PathStyle;
use crate::paths::{parent, parent_of};
use crate::text::{chars_of, first_is, has_prefix, same, starts_with, text_range, Text};

verus! {

/// What remains of `path` below `prefix`: nothing, or a rest that starts with
/// a slash.
pub open spec fn below(path: Text, prefix: Text) -> Option<Text> {
    if starts_with(path, prefix) {
        let rest = path.skip(prefix.len() as int);
        if rest.len() == 0 || rest[0] == '/' {
            Some(rest)
        } else {
            None
        }
    } else {
        None
    }
}

/// `path` with the prefix `old` written as `new`.
pub open spec fn substituted(path: Text, old: Text, new: Text) -> Option<Text> {
    match below(path, old) {
        Some(rest) => Some(new + rest),
        None => None,
    }
}

/// What remains of a path below a prefix.
pub fn rest_below(path: &str, prefix: &str) -> (r: Option<String>)
    ensures
        r.deep_view() == below(path@, prefix@),
{
    if !has_prefix(path, prefix) {
        return None;
    }
    let chars = chars_of(path);
    let head = chars_of(prefix);
    let n: usize = head.len();
    let rest = text_range(&chars, n, chars.len());
    assert(rest@ =~= path@.skip(n as int));
    if rest.as_str().is_empty() || first_is(rest.as_str(), '/') {
        Some(rest)
    } else {
        None
    }
}

/// A path with one prefix written as another.
pub fn replacement(path: &str, old_prefix: &str, new_prefix: &str) -> (r: Option<String>)
    ensures
        r.deep_view() == substituted(path@, old_prefix@, new_prefix@),
{
    match rest_below(path, old_prefix) {
        Some(rest) => {
            let mut r = new_prefix.to_owned();
            r.append(rest.as_str());
            Some(r)
        },
        None => None,
    }
}

/// Writing a prefix as another and back gives the path itself.
pub proof fn lemma_substitution_inverts(path: Text, old: Text, new: Text)
    requires
        substituted(path, old, new) is Some,
    ensures
        substituted(substituted(path, old, new).unwrap(), new, old) == Some(path),
{
    let rest = below(path, old).unwrap();
    let moved = new + rest;
    assert(moved.take(new.len() as int) =~= new);
    assert(moved.skip(new.len() as int) =~= rest);
    assert(path =~= path.take(old.len() as int) + rest);
}

// ---------------------------------------------------------------------------
// Transitions
// ---------------------------------------------------------------------------

/// The rename evidence between a commit and one of its parents.
#[derive(Debug)]
pub struct Transition {
    /// How its paths are read.
    pub style: PathStyle,
    /// Evidence for the identity of files.
    pub renames: Vec<Rename>,
    /// The part of it that also carries exception entries.
    pub entry_renames: Vec<Rename>,
}

pub struct TransitionView {
    pub style: PathStyle,
    pub renames: Seq<RenameView>,
    pub entry_renames: Seq<RenameView>,
}

impl View for Transition {
    type V = TransitionView;

    open spec fn view(&self) -> TransitionView {
        TransitionView {
            style: self.style,
            renames: self.renames.deep_view(),
            entry_renames: self.entry_renames.deep_view(),
        }
    }
}

impl DeepView for Transition {
    type V = TransitionView;

    open spec fn deep_view(&self) -> TransitionView {
        self@
    }
}

pub open spec fn movement_kind(kind: RenameKind) -> MovementKind {
    match kind {
        RenameKind::ExactFile => MovementKind::ExactFile,
        RenameKind::Directory => MovementKind::Directory,
    }
}

/// The first rename of exactly `path`; where only directory evidence counts,
/// the first that a directory substitution accounts for.
pub open spec fn first_exact(
    renames: Seq<RenameView>,
    path: Text,
    directories_only: bool,
) -> Option<RenameView>
    decreases renames.len(),
{
    if renames.len() == 0 {
        None
    } else if renames[0].old == path && (!directories_only || renames[0].kind
        == RenameKind::Directory) {
        Some(renames[0])
    } else {
        first_exact(renames.drop_first(), path, directories_only)
    }
}

/// Where a directory rename takes `path`: from below the directory of its old
/// side to below the directory of its new side.
pub open spec fn directory_target(
    style: PathStyle,
    rename: RenameView,
    path: Text,
) -> Option<Text> {
    if rename.kind != RenameKind::Directory {
        None
    } else {
        match (parent(style, rename.old), parent(style, rename.new)) {
            (Some(from), Some(to)) => substituted(path, from, to),
            _ => None,
        }
    }
}

/// Where the first directory rename that reaches `path` takes it.
pub open spec fn first_directory(
    style: PathStyle,
    renames: Seq<RenameView>,
    path: Text,
) -> Option<Text>
    decreases renames.len(),
{
    if renames.len() == 0 {
        None
    } else {
        match directory_target(style, renames[0], path) {
            Some(target) => Some(target),
            None => first_directory(style, renames.drop_first(), path),
        }
    }
}

/// Where `path` goes, and on what evidence.
pub open spec fn mapped_path(
    style: PathStyle,
    renames: Seq<RenameView>,
    path: Text,
    directories_only: bool,
) -> (Text, Option<MovementKind>) {
    match first_exact(renames, path, directories_only) {
        Some(rename) => (rename.new, Some(movement_kind(rename.kind))),
        None => match first_directory(style, renames, path) {
            Some(target) => (target, Some(MovementKind::Directory)),
            None => (path, None),
        },
    }
}

/// The entry's path expression is a glob.
pub open spec fn is_glob(address: AddressView) -> bool {
    address.match_kind == "glob"@
}

/// The first of two kinds that is there.
pub open spec fn kind_or(
    first: Option<MovementKind>,
    second: Option<MovementKind>,
) -> Option<MovementKind> {
    match first {
        Some(kind) => Some(kind),
        None => second,
    }
}

/// Where an exception address goes. A glob moves only with a directory.
pub open spec fn mapped_address(t: TransitionView, a: AddressView) -> (
    AddressView,
    Option<MovementKind>,
) {
    let (registry, registry_kind) = mapped_path(t.style, t.entry_renames, a.registry, false);
    let (path, path_kind) = mapped_path(t.style, t.entry_renames, a.path, is_glob(a));
    (
        AddressView {
            severity: a.severity,
            registry,
            path,
            match_kind: a.match_kind,
            unit: a.unit,
            rules: a.rules,
        },
        kind_or(path_kind, registry_kind),
    )
}

/// Where a finding address goes.
pub open spec fn mapped_finding(t: TransitionView, f: FindingAddressView) -> FindingAddressView {
    FindingAddressView {
        path: mapped_path(t.style, t.renames, f.path, false).0,
        rule: f.rule,
        unit: f.unit,
    }
}

/// Whether an entry's path expression is a glob.
pub fn glob(address: &Address) -> (r: bool)
    ensures
        r == is_glob(address@),
{
    same(address.match_kind.as_str(), "glob")
}

fn exact_target(renames: &Vec<Rename>, path: &str, directories_only: bool) -> (r: Option<usize>)
    ensures
        match r {
            Some(i) => i < renames@.len() && first_exact(
                renames.deep_view(),
                path@,
                directories_only,
            ) == Some(renames@[i as int]@),
            None => first_exact(renames.deep_view(), path@, directories_only) is None,
        },
{
    let ghost all = renames.deep_view();
    let mut i: usize = 0;
    assert(all.skip(0) =~= all);
    while i < renames.len()
        invariant
            i <= renames@.len(),
            all == renames.deep_view(),
            first_exact(all, path@, directories_only) == first_exact(
                all.skip(i as int),
                path@,
                directories_only,
            ),
        decreases renames@.len() - i,
    {
        assert(all.skip(i as int)[0] == renames@[i as int]@);
        assert(all.skip(i as int).drop_first() =~= all.skip(i + 1));
        if same(renames[i].old.as_str(), path) && (!directories_only || renames[i].kind
            == RenameKind::Directory) {
            return Some(i);
        }
        i += 1;
    }
    None
}

fn directory_mapped(style: PathStyle, rename: &Rename, path: &str) -> (r: Option<String>)
    ensures
        r.deep_view() == directory_target(style, rename@, path@),
{
    if rename.kind != RenameKind::Directory {
        return None;
    }
    let from = parent_of(style, rename.old.as_str());
    let to = parent_of(style, rename.new.as_str());
    match (from, to) {
        (Some(from), Some(to)) => replacement(path, from.as_str(), to.as_str()),
        _ => None,
    }
}

/// Where a path goes on the given evidence.
fn map_path_with(
    style: PathStyle,
    path: &str,
    renames: &Vec<Rename>,
    directories_only: bool,
) -> (r: (String, Option<MovementKind>))
    ensures
        (r.0@, r.1) == mapped_path(style, renames.deep_view(), path@, directories_only),
{
    match exact_target(renames, path, directories_only) {
        Some(i) => {
            let kind = match renames[i].kind {
                RenameKind::ExactFile => MovementKind::ExactFile,
                RenameKind::Directory => MovementKind::Directory,
            };
            return (renames[i].new.clone(), Some(kind));
        },
        None => {},
    }
    let ghost all = renames.deep_view();
    let mut i: usize = 0;
    assert(all.skip(0) =~= all);
    while i < renames.len()
        invariant
            i <= renames@.len(),
            all == renames.deep_view(),
            first_exact(all, path@, directories_only) is None,
            first_directory(style, all, path@) == first_directory(style, all.skip(i as int), path@),
        decreases renames@.len() - i,
    {
        assert(all.skip(i as int)[0] == renames@[i as int]@);
        assert(all.skip(i as int).drop_first() =~= all.skip(i + 1));
        match directory_mapped(style, &renames[i], path) {
            Some(target) => {
                return (target, Some(MovementKind::Directory));
            },
            None => {},
        }
        i += 1;
    }
    (path.to_owned(), None)
}

impl Transition {
    /// Where a file goes.
    pub fn map_path(&self, path: &str) -> (r: (String, Option<MovementKind>))
        ensures
            (r.0@, r.1) == mapped_path(self@.style, self@.renames, path@, false),
    {
        map_path_with(self.style, path, &self.renames, false)
    }

    /// Where a path of an exception entry goes.
    pub fn map_entry_path(&self, path: &str, directories_only: bool) -> (r: (
        String,
        Option<MovementKind>,
    ))
        ensures
            (r.0@, r.1) == mapped_path(self@.style, self@.entry_renames, path@, directories_only),
    {
        map_path_with(self.style, path, &self.entry_renames, directories_only)
    }

    /// Where an exception address goes, and on what evidence.
    pub fn map_address(&self, address: &Address) -> (r: (Address, Option<MovementKind>))
        ensures
            (r.0@, r.1) == mapped_address(self@, address@),
    {
        let (registry, registry_kind) = self.map_entry_path(address.registry.as_str(), false);
        let (path, path_kind) = self.map_entry_path(address.path.as_str(), glob(address));
        let mut mapped = address.clone();
        mapped.registry = registry;
        mapped.path = path;
        let kind = match path_kind {
            Some(kind) => Some(kind),
            None => registry_kind,
        };
        (mapped, kind)
    }

    /// Where a finding address goes.
    pub fn map_finding(&self, address: &FindingAddress) -> (r: FindingAddress)
        ensures
            r@ == mapped_finding(self@, address@),
    {
        let (path, _) = self.map_path(address.path.as_str());
        FindingAddress { path, rule: address.rule.clone(), unit: address.unit.clone() }
    }
}

} // verus!
