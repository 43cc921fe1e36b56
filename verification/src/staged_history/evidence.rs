//! The evidence that a staged check has gathered so far. Each question is put
//! once; what Git cannot answer is known to be unavailable.

use vstd::prelude::*;

use super::changes::{Change, ChangeView, Commit, CommitView, Version, VersionView};
use crate::budget::{FileMeasurement, Unit};
use crate::text::{same, Text};

verus! {

/// One standing staged soft finding whose history can affect this commit.
#[derive(Debug)]
pub struct Candidate {
    pub path: String,
    pub rule_id: String,
    pub unit: Unit,
    pub soft_limit: u64,
    pub edit_limit: u64,
    pub count_blank_lines: bool,
    pub count_comment_lines: bool,
}

/// What is known of a question.
pub enum Answer<T> {
    /// It was not put yet.
    Open,
    /// It cannot be answered.
    Unavailable,
    Given(T),
}

pub open spec fn answer<T>(given: Option<T>) -> Answer<T> {
    match given {
        Some(value) => Answer::Given(value),
        None => Answer::Unavailable,
    }
}

/// The changes from a parent to its child.
#[derive(Debug)]
pub struct EdgeAnswer {
    pub child: String,
    pub parent: String,
    pub changes: Option<Vec<Change>>,
}

/// Whether the rule of a candidate governs a name.
#[derive(Debug)]
pub struct NameAnswer {
    pub candidate: usize,
    pub path: String,
    pub governed: Option<bool>,
}

/// The measurement of a version.
#[derive(Debug)]
pub struct VersionAnswer {
    pub version: Version,
    pub measurement: Option<FileMeasurement>,
}

pub struct EdgeAnswerView {
    pub child: Text,
    pub parent: Text,
    pub changes: Option<Seq<ChangeView>>,
}

pub struct NameAnswerView {
    pub candidate: int,
    pub path: Text,
    pub governed: Option<bool>,
}

pub struct VersionAnswerView {
    pub version: VersionView,
    pub measurement: Option<FileMeasurement>,
}

impl View for EdgeAnswer {
    type V = EdgeAnswerView;

    open spec fn view(&self) -> EdgeAnswerView {
        EdgeAnswerView {
            child: self.child@,
            parent: self.parent@,
            changes: self.changes.deep_view(),
        }
    }
}

impl DeepView for EdgeAnswer {
    type V = EdgeAnswerView;

    open spec fn deep_view(&self) -> EdgeAnswerView {
        self@
    }
}

impl View for NameAnswer {
    type V = NameAnswerView;

    open spec fn view(&self) -> NameAnswerView {
        NameAnswerView {
            candidate: self.candidate as int,
            path: self.path@,
            governed: self.governed,
        }
    }
}

impl DeepView for NameAnswer {
    type V = NameAnswerView;

    open spec fn deep_view(&self) -> NameAnswerView {
        self@
    }
}

impl View for VersionAnswer {
    type V = VersionAnswerView;

    open spec fn view(&self) -> VersionAnswerView {
        VersionAnswerView { version: self.version@, measurement: self.measurement }
    }
}

impl DeepView for VersionAnswer {
    type V = VersionAnswerView;

    open spec fn deep_view(&self) -> VersionAnswerView {
        self@
    }
}

/// What a walk goes by.
#[derive(Debug)]
pub struct Known {
    /// The commits that `HEAD` reaches, `HEAD` first, children before parents.
    pub commits: Vec<Commit>,
    /// The commits whose parents are cut off.
    pub shallow: Vec<String>,
    pub edges: Vec<EdgeAnswer>,
    pub names: Vec<NameAnswer>,
    pub versions: Vec<VersionAnswer>,
}

pub struct KnownView {
    pub commits: Seq<CommitView>,
    pub shallow: Seq<Text>,
    pub edges: Seq<EdgeAnswerView>,
    pub names: Seq<NameAnswerView>,
    pub versions: Seq<VersionAnswerView>,
}

impl View for Known {
    type V = KnownView;

    open spec fn view(&self) -> KnownView {
        KnownView {
            commits: self.commits.deep_view(),
            shallow: self.shallow.deep_view(),
            edges: self.edges.deep_view(),
            names: self.names.deep_view(),
            versions: self.versions.deep_view(),
        }
    }
}

pub open spec fn edge_answer(
    edges: Seq<EdgeAnswerView>,
    child: Text,
    parent: Text,
) -> Answer<Seq<ChangeView>>
    decreases edges.len(),
{
    if edges.len() == 0 {
        Answer::Open
    } else if edges[0].child == child && edges[0].parent == parent {
        answer(edges[0].changes)
    } else {
        edge_answer(edges.drop_first(), child, parent)
    }
}

pub open spec fn name_answer(
    names: Seq<NameAnswerView>,
    candidate: int,
    path: Text,
) -> Answer<bool>
    decreases names.len(),
{
    if names.len() == 0 {
        Answer::Open
    } else if names[0].candidate == candidate && names[0].path == path {
        answer(names[0].governed)
    } else {
        name_answer(names.drop_first(), candidate, path)
    }
}

pub open spec fn version_answer(
    versions: Seq<VersionAnswerView>,
    version: VersionView,
) -> Answer<FileMeasurement>
    decreases versions.len(),
{
    if versions.len() == 0 {
        Answer::Open
    } else if versions[0].version == version {
        answer(versions[0].measurement)
    } else {
        version_answer(versions.drop_first(), version)
    }
}

impl Known {
    /// The place of the answer about an edge.
    pub fn edge_at(&self, child: &str, parent: &str) -> (r: Option<usize>)
        ensures
            match r {
                Some(i) => i < self.edges@.len() && edge_answer(self@.edges, child@, parent@)
                    == answer(self.edges@[i as int].changes.deep_view()),
                None => edge_answer(self@.edges, child@, parent@) is Open,
            },
    {
        let ghost all = self@.edges;
        let mut i: usize = 0;
        assert(all.skip(0) =~= all);
        while i < self.edges.len()
            invariant
                i <= self.edges@.len(),
                all == self@.edges,
                edge_answer(all, child@, parent@) == edge_answer(
                    all.skip(i as int),
                    child@,
                    parent@,
                ),
            decreases self.edges@.len() - i,
        {
            assert(all.skip(i as int)[0] == self.edges@[i as int]@);
            assert(all.skip(i as int).drop_first() =~= all.skip(i + 1));
            if same(self.edges[i].child.as_str(), child) && same(
                self.edges[i].parent.as_str(),
                parent,
            ) {
                return Some(i);
            }
            i += 1;
        }
        None
    }

    /// Whether the rule of a candidate governs a name.
    pub fn name(&self, candidate: usize, path: &str) -> (r: Answer<bool>)
        ensures
            r == name_answer(self@.names, candidate as int, path@),
    {
        let ghost all = self@.names;
        let mut i: usize = 0;
        assert(all.skip(0) =~= all);
        while i < self.names.len()
            invariant
                i <= self.names@.len(),
                all == self@.names,
                name_answer(all, candidate as int, path@) == name_answer(
                    all.skip(i as int),
                    candidate as int,
                    path@,
                ),
            decreases self.names@.len() - i,
        {
            assert(all.skip(i as int)[0] == self.names@[i as int]@);
            assert(all.skip(i as int).drop_first() =~= all.skip(i + 1));
            if self.names[i].candidate == candidate && same(self.names[i].path.as_str(), path) {
                return match self.names[i].governed {
                    Some(governed) => Answer::Given(governed),
                    None => Answer::Unavailable,
                };
            }
            i += 1;
        }
        Answer::Open
    }

    /// The measurement of a version.
    pub fn version(&self, version: &Version) -> (r: Answer<FileMeasurement>)
        ensures
            r == version_answer(self@.versions, version@),
    {
        let ghost all = self@.versions;
        let mut i: usize = 0;
        assert(all.skip(0) =~= all);
        while i < self.versions.len()
            invariant
                i <= self.versions@.len(),
                all == self@.versions,
                version_answer(all, version@) == version_answer(all.skip(i as int), version@),
            decreases self.versions@.len() - i,
        {
            assert(all.skip(i as int)[0] == self.versions@[i as int]@);
            assert(all.skip(i as int).drop_first() =~= all.skip(i + 1));
            if self.versions[i].version.equals(version) {
                return match self.versions[i].measurement {
                    Some(measurement) => Answer::Given(measurement),
                    None => Answer::Unavailable,
                };
            }
            i += 1;
        }
        Answer::Open
    }
}

/// The value of a measurement under a candidate's rule.
pub open spec fn value_of(candidate: Candidate, measurement: FileMeasurement) -> Option<u64> {
    match candidate.unit {
        Unit::Bytes => Some(measurement.bytes),
        Unit::Lines => match measurement.lines {
            Some(lines) => Some(
                lines.count(candidate.count_blank_lines, candidate.count_comment_lines),
            ),
            None => None,
        },
        Unit::Tokens => measurement.tokens,
    }
}

/// The value of a measurement under a candidate's rule.
pub fn measured_value(candidate: &Candidate, measurement: &FileMeasurement) -> (r: Option<u64>)
    ensures
        r == value_of(*candidate, *measurement),
{
    match candidate.unit {
        Unit::Bytes => Some(measurement.bytes),
        Unit::Lines => match measurement.lines {
            Some(lines) => Some(
                lines.counted(candidate.count_blank_lines, candidate.count_comment_lines),
            ),
            None => None,
        },
        Unit::Tokens => measurement.tokens,
    }
}

} // verus!
