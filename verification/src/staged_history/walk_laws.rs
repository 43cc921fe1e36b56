//! What the evidence of a history says of the number of soft edits: how each
//! version at `HEAD` counts, and how one commit more changes the count.

use vstd::prelude::*;

use super::changes::{seed_at, seed_of, ChangeView, CommitView, Status, VersionView};
use super::edits::{edit_count, is_complete, is_soft_edit, walked_from, EvidenceView, SoftEdit};
use super::evidence::{
    edge_answer, name_answer, value_of, version_answer, Answer, Candidate, EdgeAnswerView,
    KnownView, NameAnswerView, VersionAnswerView,
};
use super::walk::{
    asks_edge, asks_name, asks_version, before, change_at, cut_before, edge_asked, edits_at,
    edits_before, goes_on, is_cut, is_edit, name_asked, place_from, reaches, standing, steps,
    version_asked, Before, Standing,
};
use crate::budget::{FileMeasurement, Unit};
use crate::text::{replaced, Text};

verus! {

// ---------------------------------------------------------------------------
// What is known
// ---------------------------------------------------------------------------

/// What a rule counts: the bytes, the lines of its policy, or the tokens of a
/// file. Nothing else of the measurement matters.
pub open spec fn counts(candidate: Candidate, m: FileMeasurement, value: u64) -> bool {
    match candidate.unit {
        Unit::Bytes => value == m.bytes,
        Unit::Tokens => m.tokens == Some(value),
        Unit::Lines => m.lines matches Some(lines) && value == (if candidate.count_blank_lines {
            if candidate.count_comment_lines {
                lines.physical
            } else {
                lines.non_comment
            }
        } else {
            if candidate.count_comment_lines {
                lines.non_blank
            } else {
                lines.non_blank_non_comment
            }
        }),
    }
}

/// A measurement has the value that its rule counts, and none where that was
/// not measured.
pub proof fn lemma_value_is_what_the_rule_counts(
    candidate: Candidate,
    m: FileMeasurement,
    value: u64,
)
    ensures
        value_of(candidate, m) == Some(value) <==> counts(candidate, m, value),
        value_of(candidate, m) is None <==> (candidate.unit == Unit::Lines && m.lines is None) || (
        candidate.unit == Unit::Tokens && m.tokens is None),
{
}

/// The first answer about a name counts; without one the question is open.
pub proof fn lemma_first_name_answer(names: Seq<NameAnswerView>, j: int, k: int, path: Text)
    requires
        forall|m: int|
            #![trigger names[m]]
            0 <= m < j && m < names.len() ==> !(names[m].candidate == k && names[m].path == path),
        0 <= j <= names.len(),
        j < names.len() ==> names[j].candidate == k && names[j].path == path,
    ensures
        j == names.len() ==> name_answer(names, k, path) == Answer::<bool>::Open,
        j < names.len() ==> (names[j].governed matches Some(governed) ==> name_answer(
            names,
            k,
            path,
        ) == Answer::Given(governed)),
        j < names.len() && names[j].governed is None ==> name_answer(names, k, path) == Answer::<
            bool,
        >::Unavailable,
    decreases names.len(),
{
    if names.len() > 0 && j > 0 {
        let rest = names.drop_first();
        assert(!(names[0].candidate == k && names[0].path == path));
        assert forall|m: int| #![trigger rest[m]] 0 <= m < j - 1 && m < rest.len() implies !(
        rest[m].candidate == k && rest[m].path == path) by {
            assert(rest[m] == names[m + 1]);
        }
        if j < names.len() {
            assert(rest[j - 1] == names[j]);
        }
        lemma_first_name_answer(rest, j - 1, k, path);
    }
}

/// The first measurement of a version counts; without one it is open.
pub proof fn lemma_first_version_answer(
    versions: Seq<VersionAnswerView>,
    j: int,
    version: VersionView,
)
    requires
        forall|m: int|
            #![trigger versions[m]]
            0 <= m < j && m < versions.len() ==> versions[m].version != version,
        0 <= j <= versions.len(),
        j < versions.len() ==> versions[j].version == version,
    ensures
        j == versions.len() ==> version_answer(versions, version) == Answer::<
            FileMeasurement,
        >::Open,
        j < versions.len() ==> (versions[j].measurement matches Some(m) ==> version_answer(
            versions,
            version,
        ) == Answer::Given(m)),
        j < versions.len() && versions[j].measurement is None ==> version_answer(versions, version)
            == Answer::<FileMeasurement>::Unavailable,
    decreases versions.len(),
{
    if versions.len() > 0 && j > 0 {
        let rest = versions.drop_first();
        assert(versions[0].version != version);
        assert forall|m: int| #![trigger rest[m]] 0 <= m < j - 1 && m < rest.len() implies rest[m].version
            != version by {
            assert(rest[m] == versions[m + 1]);
        }
        if j < versions.len() {
            assert(rest[j - 1] == versions[j]);
        }
        lemma_first_version_answer(rest, j - 1, version);
    }
}

/// The first answer about the way from a parent to its child counts; without
/// one it is open.
pub proof fn lemma_first_edge_answer(
    edges: Seq<EdgeAnswerView>,
    j: int,
    child: Text,
    parent: Text,
)
    requires
        forall|m: int|
            #![trigger edges[m]]
            0 <= m < j && m < edges.len() ==> !(edges[m].child == child && edges[m].parent
                == parent),
        0 <= j <= edges.len(),
        j < edges.len() ==> edges[j].child == child && edges[j].parent == parent,
    ensures
        j == edges.len() ==> edge_answer(edges, child, parent) == Answer::<Seq<ChangeView>>::Open,
        j < edges.len() ==> (edges[j].changes matches Some(changes) ==> edge_answer(
            edges,
            child,
            parent,
        ) == Answer::Given(changes)),
        j < edges.len() && edges[j].changes is None ==> edge_answer(edges, child, parent)
            == Answer::<Seq<ChangeView>>::Unavailable,
    decreases edges.len(),
{
    if edges.len() > 0 && j > 0 {
        let rest = edges.drop_first();
        assert(!(edges[0].child == child && edges[0].parent == parent));
        assert forall|m: int| #![trigger rest[m]] 0 <= m < j - 1 && m < rest.len() implies !(
        rest[m].child == child && rest[m].parent == parent) by {
            assert(rest[m] == edges[m + 1]);
        }
        if j < edges.len() {
            assert(rest[j - 1] == edges[j]);
        }
        lemma_first_edge_answer(rest, j - 1, child, parent);
    }
}

// ---------------------------------------------------------------------------
// Where the walk starts
// ---------------------------------------------------------------------------

/// The paths differ only in that the second has a slash for each backslash.
pub open spec fn is_slashed(path: Text, slashed: Text) -> bool {
    &&& slashed.len() == path.len()
    &&& forall|i: int|
        #![trigger slashed[i]]
        0 <= i < path.len() ==> slashed[i] == (if path[i] == '\\' {
            '/'
        } else {
            path[i]
        })
}

/// The change tells what the file at its new path was before: it was added,
/// copied, changed or moved.
pub open spec fn tells_origin(change: ChangeView) -> bool {
    change.status == Status::Added || change.status == Status::Copied || change.status
        == Status::Modified || change.status == Status::Renamed
}

/// The change at `c` is the last one that tells the origin of the file at `path`.
pub open spec fn is_last_origin(changes: Seq<ChangeView>, path: Text, c: int) -> bool {
    &&& 0 <= c < changes.len()
    &&& changes[c].new_path == path
    &&& tells_origin(changes[c])
    &&& forall|d: int|
        #![trigger changes[d]]
        c < d < changes.len() ==> changes[d].new_path != path || !tells_origin(changes[d])
}

proof fn lemma_seed_is_the_last(changes: Seq<ChangeView>, path: Text, c: int)
    requires
        is_last_origin(changes, path, c),
    ensures
        seed_at(changes, path) == seed_of(changes[c]),
    decreases changes.len(),
{
    if c < changes.len() - 1 {
        let rest = changes.drop_last();
        assert(changes.last() == changes[changes.len() - 1]);
        assert forall|d: int| #![trigger rest[d]] c < d < rest.len() implies rest[d].new_path
            != path || !tells_origin(rest[d]) by {
            assert(rest[d] == changes[d]);
        }
        lemma_seed_is_the_last(rest, path, c);
    }
}

proof fn lemma_no_seed(changes: Seq<ChangeView>, path: Text)
    requires
        forall|c: int|
            #![trigger changes[c]]
            0 <= c < changes.len() ==> changes[c].new_path != path || !tells_origin(changes[c]),
    ensures
        seed_at(changes, path) is None,
    decreases changes.len(),
{
    if changes.len() > 0 {
        let rest = changes.drop_last();
        assert(changes.last() == changes[changes.len() - 1]);
        assert forall|c: int| #![trigger rest[c]] 0 <= c < rest.len() implies rest[c].new_path
            != path || !tells_origin(rest[c]) by {
            assert(rest[c] == changes[c]);
        }
        lemma_no_seed(rest, path);
    }
}

/// The walk of a staged file starts at what the staged changes say it was at
/// `HEAD`. A file that they add is in its first edit, and that is proved.
pub proof fn lemma_staged_changes_start_the_walk(
    e: EvidenceView,
    k: int,
    candidate: Candidate,
    changes: Seq<ChangeView>,
    path: Text,
    c: int,
)
    requires
        e.staged == Some(changes),
        e.shallow_listed,
        is_slashed(candidate.path@, path),
        is_last_origin(changes, path, c),
    ensures
        changes[c].status == Status::Modified || changes[c].status == Status::Renamed ==> {
            &&& e.known.commits.len() > 0 ==> walked_from(e, candidate) == Some(
                VersionView { path: changes[c].old_path, blob: changes[c].old_blob },
            )
            &&& e.known.commits.len() == 0 ==> edit_count(e, k, candidate) == 1 && !is_complete(
                e,
                k,
                candidate,
            )
        },
        changes[c].status == Status::Added || changes[c].status == Status::Copied ==> edit_count(
            e,
            k,
            candidate,
        ) == 1 && is_complete(e, k, candidate),
{
    assert(path =~= replaced(candidate.path@, '\\', '/'));
    lemma_seed_is_the_last(changes, path, c);
}

/// Without staged changes that tell where the file comes from, or without the
/// list of shallow commits, only the staged edit counts and nothing is proved.
pub proof fn lemma_no_start_proves_nothing(
    e: EvidenceView,
    k: int,
    candidate: Candidate,
    path: Text,
)
    requires
        is_slashed(candidate.path@, path),
        e.shallow_listed ==> (e.staged matches Some(changes) ==> forall|c: int|
            #![trigger changes[c]]
            0 <= c < changes.len() ==> changes[c].new_path != path || !tells_origin(changes[c])),
    ensures
        edit_count(e, k, candidate) == 1,
        !is_complete(e, k, candidate),
{
    assert(path =~= replaced(candidate.path@, '\\', '/'));
    if e.shallow_listed {
        if let Some(changes) = e.staged {
            lemma_no_seed(changes, path);
        }
    }
}

/// An edit is reported as its rule asks, and promoted exactly when its history
/// is complete and the count has reached the limit.
pub proof fn lemma_edit_is_reported(
    e: EvidenceView,
    k: int,
    candidate: Candidate,
    edit: SoftEdit,
)
    requires
        is_soft_edit(e, k, candidate, edit),
    ensures
        edit.path@ == candidate.path@,
        edit.rule_id@ == candidate.rule_id@,
        edit.unit == candidate.unit,
        edit.limit == candidate.edit_limit,
        edit.count == edit_count(e, k, candidate),
        edit.history_complete <==> is_complete(e, k, candidate),
        edit.is_promoted() <==> is_complete(e, k, candidate) && !(edit_count(e, k, candidate)
            < candidate.edit_limit),
{
}

// ---------------------------------------------------------------------------
// One version
// ---------------------------------------------------------------------------

/// The name is governed and the version measures `value`, at a commit whose
/// parents are known.
pub open spec fn measures(
    known: KnownView,
    k: int,
    candidate: Candidate,
    i: int,
    version: VersionView,
    value: u64,
) -> bool {
    &&& !known.shallow.contains(known.commits[i].sha)
    &&& name_answer(known.names, k, version.path) == Answer::Given(true)
    &&& exists|m: FileMeasurement| #[trigger]
        counts(candidate, m, value) && version_answer(known.versions, version) == Answer::Given(m)
}

/// The version stands over the soft limit.
pub open spec fn is_over_soft(
    known: KnownView,
    k: int,
    candidate: Candidate,
    i: int,
    version: VersionView,
) -> bool {
    exists|value: u64| #[trigger]
        measures(known, k, candidate, i, version, value) && value > candidate.soft_limit
}

/// The version ends a run of edits: its name is not governed, or it is at or
/// below the soft limit.
pub open spec fn ends_the_run(
    known: KnownView,
    k: int,
    candidate: Candidate,
    i: int,
    version: VersionView,
) -> bool {
    ||| !known.shallow.contains(known.commits[i].sha) && name_answer(
        known.names,
        k,
        version.path,
    ) == Answer::Given(false)
    ||| exists|value: u64| #[trigger]
        measures(known, k, candidate, i, version, value) && value <= candidate.soft_limit
}

/// Nothing can be said of the version: the parents of its commit are cut off,
/// or its name or its measure cannot be had.
pub open spec fn says_nothing(
    known: KnownView,
    k: int,
    candidate: Candidate,
    i: int,
    version: VersionView,
) -> bool {
    ||| known.shallow.contains(known.commits[i].sha)
    ||| name_answer(known.names, k, version.path) == Answer::<bool>::Unavailable
    ||| name_answer(known.names, k, version.path) == Answer::Given(true) && version_answer(
        known.versions,
        version,
    ) == Answer::<FileMeasurement>::Unavailable
    ||| exists|m: FileMeasurement| #[trigger]
        value_of(candidate, m) is None && name_answer(known.names, k, version.path)
            == Answer::Given(true) && version_answer(known.versions, version) == Answer::Given(m)
}

proof fn lemma_stands_over(
    known: KnownView,
    k: int,
    candidate: Candidate,
    i: int,
    version: VersionView,
)
    requires
        is_over_soft(known, k, candidate, i, version),
    ensures
        standing(known, k, candidate, i, version) == Standing::Over,
{
    let value = choose|value: u64| #[trigger]
        measures(known, k, candidate, i, version, value) && value > candidate.soft_limit;
    let m = choose|m: FileMeasurement| #[trigger]
        counts(candidate, m, value) && version_answer(known.versions, version) == Answer::Given(m);
    lemma_value_is_what_the_rule_counts(candidate, m, value);
}

proof fn lemma_stands_closed(
    known: KnownView,
    k: int,
    candidate: Candidate,
    i: int,
    version: VersionView,
)
    requires
        ends_the_run(known, k, candidate, i, version),
    ensures
        standing(known, k, candidate, i, version) == Standing::Closed,
{
    if exists|value: u64| #[trigger]
        measures(known, k, candidate, i, version, value) && value <= candidate.soft_limit {
        let value = choose|value: u64| #[trigger]
            measures(known, k, candidate, i, version, value) && value <= candidate.soft_limit;
        let m = choose|m: FileMeasurement| #[trigger]
            counts(candidate, m, value) && version_answer(known.versions, version)
                == Answer::Given(m);
        lemma_value_is_what_the_rule_counts(candidate, m, value);
    }
}

proof fn lemma_head_decides(
    known: KnownView,
    k: int,
    candidate: Candidate,
    start: VersionView,
    n: int,
)
    requires
        n > 0,
        forall|p: int, j: int, next: VersionView| !#[trigger]
            steps(known, k, candidate, 0, start, p, j, next),
    ensures
        edits_before(known, k, candidate, start, n) == (if standing(known, k, candidate, 0, start)
            == Standing::Over && is_edit(known, 0, start) {
            1int
        } else {
            0
        }),
        cut_before(known, k, candidate, start, n) == is_cut(known, k, candidate, 0, start),
{
    assert forall|j: int, version: VersionView| j > 0 implies !#[trigger] reaches(
        known,
        k,
        candidate,
        start,
        j,
        version,
    ) by {
        lemma_nothing_behind(known, k, candidate, start, j, version);
    }
    lemma_edits_of_head(known, k, candidate, start, n);
    assert(reaches(known, k, candidate, start, 0, start));
    if cut_before(known, k, candidate, start, n) {
        let (i, version) = choose|i: int, version: VersionView|
            0 <= i < n && #[trigger] reaches(known, k, candidate, start, i, version) && is_cut(
                known,
                k,
                candidate,
                i,
                version,
            );
        assert(i == 0);
    }
}

proof fn lemma_nothing_behind(
    known: KnownView,
    k: int,
    candidate: Candidate,
    start: VersionView,
    j: int,
    version: VersionView,
)
    requires
        j > 0,
        forall|p: int, j: int, next: VersionView| !#[trigger]
            steps(known, k, candidate, 0, start, p, j, next),
    ensures
        !reaches(known, k, candidate, start, j, version),
    decreases j,
{
    if reaches(known, k, candidate, start, j, version) {
        let (i, earlier, p) = choose|i: int, earlier: VersionView, p: int|
            {
                &&& #[trigger] steps(known, k, candidate, i, earlier, p, j, version)
                &&& 0 <= i < j
                &&& reaches(known, k, candidate, start, i, earlier)
            };
        if i > 0 {
            lemma_nothing_behind(known, k, candidate, start, i, earlier);
        }
    }
}

proof fn lemma_edits_of_head(
    known: KnownView,
    k: int,
    candidate: Candidate,
    start: VersionView,
    n: int,
)
    requires
        n > 0,
        forall|j: int, version: VersionView|
            j > 0 ==> !#[trigger] reaches(known, k, candidate, start, j, version),
    ensures
        edits_before(known, k, candidate, start, n) == (if standing(known, k, candidate, 0, start)
            == Standing::Over && is_edit(known, 0, start) {
            1int
        } else {
            0
        }),
    decreases n,
{
    if n > 1 {
        lemma_edits_of_head(known, k, candidate, start, n - 1);
        assert(!edits_at(known, k, candidate, start, n - 1));
    } else {
        assert(edits_before(known, k, candidate, start, 0) == 0);
        if standing(known, k, candidate, 0, start) == Standing::Over && is_edit(known, 0, start) {
            assert(reaches(known, k, candidate, start, 0, start));
        }
    }
}

/// Where the committed version ends the run, the staged edit is the first one,
/// and that is proved.
pub proof fn lemma_run_starts_with_the_staged_edit(
    e: EvidenceView,
    k: int,
    candidate: Candidate,
    start: VersionView,
)
    requires
        walked_from(e, candidate) == Some(start),
        ends_the_run(e.known, k, candidate, 0, start),
    ensures
        edit_count(e, k, candidate) == 1,
        is_complete(e, k, candidate),
{
    lemma_stands_closed(e.known, k, candidate, 0, start);
    lemma_head_decides(e.known, k, candidate, start, e.known.commits.len() as int);
}

/// Where nothing can be said of the committed version, only the staged edit is
/// established, and nothing is proved.
pub proof fn lemma_silence_proves_nothing(
    e: EvidenceView,
    k: int,
    candidate: Candidate,
    start: VersionView,
)
    requires
        walked_from(e, candidate) == Some(start),
        says_nothing(e.known, k, candidate, 0, start),
    ensures
        edit_count(e, k, candidate) == 1,
        !is_complete(e, k, candidate),
{
    lemma_head_decides(e.known, k, candidate, start, e.known.commits.len() as int);
}

// ---------------------------------------------------------------------------
// New files
// ---------------------------------------------------------------------------

/// The changes say that the file at `path` came without a predecessor: the
/// first change that arrives there adds or copies it.
pub open spec fn says_new(changes: Seq<ChangeView>, path: Text) -> bool {
    exists|c: int|
        #![trigger changes[c]]
        {
            &&& 0 <= c < changes.len()
            &&& changes[c].new_path == path
            &&& changes[c].status == Status::Added || changes[c].status == Status::Copied
            &&& forall|d: int|
                #![trigger changes[d]]
                0 <= d < c ==> changes[d].new_path != path || changes[d].status == Status::Deleted
        }
}

/// The changes say that the file at `path` was at `from` with the blob `blob`.
pub open spec fn says_came_from(
    changes: Seq<ChangeView>,
    path: Text,
    from: Text,
    blob: Text,
) -> bool {
    exists|c: int|
        #![trigger changes[c]]
        {
            &&& 0 <= c < changes.len()
            &&& changes[c].new_path == path
            &&& changes[c].old_path == from
            &&& changes[c].old_blob == blob
            &&& changes[c].status == Status::Modified || changes[c].status == Status::Renamed
                || changes[c].status == Status::Other
            &&& forall|d: int|
                #![trigger changes[d]]
                0 <= d < c ==> changes[d].new_path != path || changes[d].status == Status::Deleted
        }
}

/// No change arrives at `path`.
pub open spec fn says_nothing_of(changes: Seq<ChangeView>, path: Text) -> bool {
    forall|c: int|
        #![trigger changes[c]]
        0 <= c < changes.len() ==> changes[c].new_path != path || changes[c].status
            == Status::Deleted
}

proof fn lemma_change_at(changes: Seq<ChangeView>, path: Text, c: int)
    requires
        0 <= c <= changes.len(),
        c < changes.len() ==> changes[c].new_path == path && changes[c].status != Status::Deleted,
        forall|d: int|
            #![trigger changes[d]]
            0 <= d < c ==> changes[d].new_path != path || changes[d].status == Status::Deleted,
    ensures
        change_at(changes, path) == (if c < changes.len() {
            Some(changes[c])
        } else {
            None
        }),
    decreases changes.len(),
{
    if changes.len() > 0 && c > 0 {
        let rest = changes.drop_first();
        assert(changes[0].new_path != path || changes[0].status == Status::Deleted);
        assert forall|d: int| #![trigger rest[d]] 0 <= d < c - 1 implies rest[d].new_path != path
            || rest[d].status == Status::Deleted by {
            assert(rest[d] == changes[d + 1]);
        }
        if c < changes.len() {
            assert(rest[c - 1] == changes[c]);
        }
        lemma_change_at(rest, path, c - 1);
    }
}

/// Every parent of the commit says that the file is new there.
pub open spec fn is_new_at(known: KnownView, i: int, version: VersionView) -> bool {
    forall|p: int|
        #![trigger known.commits[i].parents[p]]
        0 <= p < known.commits[i].parents.len() ==> (edge_answer(
            known.edges,
            known.commits[i].sha,
            known.commits[i].parents[p],
        ) matches Answer::Given(changes) && says_new(changes, version.path))
}

proof fn lemma_new_is_absent(known: KnownView, i: int, version: VersionView, p: int)
    requires
        is_new_at(known, i, version),
        0 <= p < known.commits[i].parents.len(),
    ensures
        before(known, i, version, p) == Before::Absent,
{
    let parent = known.commits[i].parents[p];
    let changes = edge_answer(known.edges, known.commits[i].sha, parent)->Given_0;
    let path = version.path;
    let c = choose|c: int|
        #![trigger changes[c]]
        {
            &&& 0 <= c < changes.len()
            &&& changes[c].new_path == path
            &&& changes[c].status == Status::Added || changes[c].status == Status::Copied
            &&& forall|d: int|
                #![trigger changes[d]]
                0 <= d < c ==> changes[d].new_path != path || changes[d].status == Status::Deleted
        };
    lemma_change_at(changes, path, c);
}

/// A commit that adds the file over the soft limit counts as one edit, and no
/// line through it is cut or followed further: the absence before it is
/// established.
pub proof fn lemma_new_file_counts_and_closes(
    known: KnownView,
    k: int,
    candidate: Candidate,
    start: VersionView,
    i: int,
    version: VersionView,
)
    requires
        0 <= i,
        reaches(known, k, candidate, start, i, version),
        is_over_soft(known, k, candidate, i, version),
        is_new_at(known, i, version),
    ensures
        edits_before(known, k, candidate, start, i + 1) == edits_before(
            known,
            k,
            candidate,
            start,
            i,
        ) + 1,
        !is_cut(known, k, candidate, i, version),
        forall|p: int, j: int, next: VersionView| !#[trigger]
            steps(known, k, candidate, i, version, p, j, next),
{
    lemma_stands_over(known, k, candidate, i, version);
    assert forall|p: int|
        #![trigger known.commits[i].parents[p]]
        0 <= p < known.commits[i].parents.len() implies before(known, i, version, p)
        == Before::Absent by {
        lemma_new_is_absent(known, i, version, p);
    }
    assert(is_edit(known, i, version));
    assert(edits_at(known, k, candidate, start, i));
    assert forall|p: int, j: int, next: VersionView| !#[trigger] steps(
        known,
        k,
        candidate,
        i,
        version,
        p,
        j,
        next,
    ) by {
        if 0 <= p < known.commits[i].parents.len() {
            lemma_new_is_absent(known, i, version, p);
        }
    }
}

/// With the file added over the soft limit at `HEAD`, the staged edit is the
/// second one, and the history is complete.
pub proof fn lemma_second_edit_of_a_new_file(
    e: EvidenceView,
    k: int,
    candidate: Candidate,
    start: VersionView,
)
    requires
        walked_from(e, candidate) == Some(start),
        is_over_soft(e.known, k, candidate, 0, start),
        is_new_at(e.known, 0, start),
    ensures
        edit_count(e, k, candidate) == 2,
        is_complete(e, k, candidate),
{
    assert(reaches(e.known, k, candidate, start, 0, start));
    lemma_new_file_counts_and_closes(e.known, k, candidate, start, 0, start);
    lemma_stands_over(e.known, k, candidate, 0, start);
    assert forall|p: int|
        #![trigger e.known.commits[0].parents[p]]
        0 <= p < e.known.commits[0].parents.len() implies before(e.known, 0, start, p)
        == Before::Absent by {
        lemma_new_is_absent(e.known, 0, start, p);
    }
    assert(is_edit(e.known, 0, start));
    lemma_head_decides(e.known, k, candidate, start, e.known.commits.len() as int);
}

// ---------------------------------------------------------------------------
// One commit more
// ---------------------------------------------------------------------------

/// The same evidence without its newest commit.
pub open spec fn without_head(known: KnownView) -> KnownView {
    KnownView {
        commits: known.commits.drop_first(),
        shallow: known.shallow,
        edges: known.edges,
        names: known.names,
        versions: known.versions,
    }
}

proof fn lemma_place_shifts(commits: Seq<CommitView>, from: int, sha: Text)
    requires
        commits.len() > 0,
        0 <= from,
    ensures
        match place_from(commits, from + 1, sha) {
            Some(j) => j > from && place_from(commits.drop_first(), from, sha) == Some(j - 1),
            None => place_from(commits.drop_first(), from, sha) is None,
        },
    decreases commits.len() - from,
{
    let rest = commits.drop_first();
    if from + 1 < commits.len() {
        assert(rest[from] == commits[from + 1]);
        if commits[from + 1].sha != sha {
            lemma_place_shifts(commits, from + 1, sha);
        }
    }
}

proof fn lemma_before_shifts(known: KnownView, i: int, version: VersionView, p: int)
    requires
        known.commits.len() > 0,
        0 < i < known.commits.len(),
    ensures
        goes_on(before(without_head(known), i - 1, version, p), version) == (match goes_on(
            before(known, i, version, p),
            version,
        ) {
            Some((j, next)) => Some((j - 1, next)),
            None => None,
        }),
        goes_on(before(known, i, version, p), version) matches Some((j, _)) ==> j > i,
        before(without_head(known), i - 1, version, p) is Absent <==> before(known, i, version, p)
            is Absent,
        before(without_head(known), i - 1, version, p) is Other <==> before(known, i, version, p)
            is Other,
        before(without_head(known), i - 1, version, p) is Cut <==> before(known, i, version, p)
            is Cut,
{
    let short = without_head(known);
    assert(short.commits[i - 1] == known.commits[i]);
    lemma_place_shifts(known.commits, i, known.commits[i].parents[p]);
}

proof fn lemma_one_shifts(
    known: KnownView,
    k: int,
    candidate: Candidate,
    i: int,
    version: VersionView,
)
    requires
        0 < i < known.commits.len(),
    ensures
        standing(without_head(known), k, candidate, i - 1, version) == standing(
            known,
            k,
            candidate,
            i,
            version,
        ),
        is_edit(without_head(known), i - 1, version) == is_edit(known, i, version),
        is_cut(without_head(known), k, candidate, i - 1, version) == is_cut(
            known,
            k,
            candidate,
            i,
            version,
        ),
{
    let short = without_head(known);
    assert(short.commits[i - 1] == known.commits[i]);
    assert forall|p: int|
        #![trigger known.commits[i].parents[p]]
        0 <= p < known.commits[i].parents.len() implies (before(short, i - 1, version, p) is Absent
        <==> before(known, i, version, p) is Absent) && (before(short, i - 1, version, p) is Other
        <==> before(known, i, version, p) is Other) && (before(short, i - 1, version, p) is Cut
        <==> before(known, i, version, p) is Cut) by {
        lemma_before_shifts(known, i, version, p);
    }
    assert forall|p: int| #![trigger short.commits[i - 1].parents[p]]
        0 <= p < short.commits[i - 1].parents.len() implies short.commits[i - 1].parents[p]
        == known.commits[i].parents[p] by {}
    if is_edit(known, i, version) {
        assert forall|p: int|
            #![trigger short.commits[i - 1].parents[p]]
            0 <= p < short.commits[i - 1].parents.len() implies before(short, i - 1, version, p)
            is Absent || before(short, i - 1, version, p) is Other by {
            assert(known.commits[i].parents[p] == short.commits[i - 1].parents[p]);
        }
    }
    if is_edit(short, i - 1, version) {
        assert forall|p: int|
            #![trigger known.commits[i].parents[p]]
            0 <= p < known.commits[i].parents.len() implies before(known, i, version, p) is Absent
            || before(known, i, version, p) is Other by {
            assert(known.commits[i].parents[p] == short.commits[i - 1].parents[p]);
        }
    }
}

/// The walk leaves `HEAD` for the version `next` at the commit behind it, and
/// for nothing else.
pub open spec fn leaves_for(
    known: KnownView,
    k: int,
    candidate: Candidate,
    start: VersionView,
    next: VersionView,
) -> bool {
    &&& known.commits.len() > 1
    &&& known.commits[0].parents.len() == 1
    &&& standing(known, k, candidate, 0, start) == Standing::Over
    &&& goes_on(before(known, 0, start, 0), start) == Some((1int, next))
}

proof fn lemma_reach_shifts(
    known: KnownView,
    k: int,
    candidate: Candidate,
    start: VersionView,
    next: VersionView,
    j: int,
    version: VersionView,
)
    requires
        leaves_for(known, k, candidate, start, next),
        0 < j,
    ensures
        reaches(known, k, candidate, start, j, version) == reaches(
            without_head(known),
            k,
            candidate,
            next,
            j - 1,
            version,
        ),
    decreases j,
{
    let short = without_head(known);
    if reaches(known, k, candidate, start, j, version) {
        let (i, earlier, p) = choose|i: int, earlier: VersionView, p: int|
            {
                &&& #[trigger] steps(known, k, candidate, i, earlier, p, j, version)
                &&& 0 <= i < j
                &&& reaches(known, k, candidate, start, i, earlier)
            };
        if i > 0 {
            lemma_reach_shifts(known, k, candidate, start, next, i, earlier);
            lemma_before_shifts(known, i, earlier, p);
            lemma_one_shifts(known, k, candidate, i, earlier);
            assert(short.commits[i - 1] == known.commits[i]);
            assert(steps(short, k, candidate, i - 1, earlier, p, j - 1, version));
        }
    }
    if reaches(short, k, candidate, next, j - 1, version) {
        if j == 1 {
            assert(reaches(known, k, candidate, start, 0, start));
            assert(steps(known, k, candidate, 0, start, 0, 1, next));
        } else {
            let (i, earlier, p) = choose|i: int, earlier: VersionView, p: int|
                {
                    &&& #[trigger] steps(short, k, candidate, i, earlier, p, j - 1, version)
                    &&& 0 <= i < j - 1
                    &&& reaches(short, k, candidate, next, i, earlier)
                };
            lemma_reach_shifts(known, k, candidate, start, next, i + 1, earlier);
            lemma_before_shifts(known, i + 1, earlier, p);
            lemma_one_shifts(known, k, candidate, i + 1, earlier);
            assert(short.commits[i] == known.commits[i + 1]);
            assert(steps(known, k, candidate, i + 1, earlier, p, j, version));
        }
    }
}

proof fn lemma_edits_at_shift(
    known: KnownView,
    k: int,
    candidate: Candidate,
    start: VersionView,
    next: VersionView,
    j: int,
)
    requires
        leaves_for(known, k, candidate, start, next),
        0 < j < known.commits.len(),
    ensures
        edits_at(known, k, candidate, start, j) == edits_at(
            without_head(known),
            k,
            candidate,
            next,
            j - 1,
        ),
{
    let short = without_head(known);
    if edits_at(known, k, candidate, start, j) {
        let version = choose|version: VersionView| #[trigger]
            reaches(known, k, candidate, start, j, version) && standing(
                known,
                k,
                candidate,
                j,
                version,
            ) == Standing::Over && is_edit(known, j, version);
        lemma_reach_shifts(known, k, candidate, start, next, j, version);
        lemma_one_shifts(known, k, candidate, j, version);
        assert(reaches(short, k, candidate, next, j - 1, version));
    }
    if edits_at(short, k, candidate, next, j - 1) {
        let version = choose|version: VersionView| #[trigger]
            reaches(short, k, candidate, next, j - 1, version) && standing(
                short,
                k,
                candidate,
                j - 1,
                version,
            ) == Standing::Over && is_edit(short, j - 1, version);
        lemma_reach_shifts(known, k, candidate, start, next, j, version);
        lemma_one_shifts(known, k, candidate, j, version);
        assert(reaches(known, k, candidate, start, j, version));
    }
}

proof fn lemma_edits_shift(
    known: KnownView,
    k: int,
    candidate: Candidate,
    start: VersionView,
    next: VersionView,
    n: int,
)
    requires
        leaves_for(known, k, candidate, start, next),
        0 < n <= known.commits.len(),
    ensures
        edits_before(known, k, candidate, start, n) == (if is_edit(known, 0, start) {
            1int
        } else {
            0
        }) + edits_before(without_head(known), k, candidate, next, n - 1),
    decreases n,
{
    if n > 1 {
        lemma_edits_shift(known, k, candidate, start, next, n - 1);
        lemma_edits_at_shift(known, k, candidate, start, next, n - 1);
    } else {
        assert(edits_before(known, k, candidate, start, 0) == 0);
        assert(reaches(known, k, candidate, start, 0, start));
    }
}

proof fn lemma_cut_shifts(
    known: KnownView,
    k: int,
    candidate: Candidate,
    start: VersionView,
    next: VersionView,
)
    requires
        leaves_for(known, k, candidate, start, next),
    ensures
        cut_before(known, k, candidate, start, known.commits.len() as int) == cut_before(
            without_head(known),
            k,
            candidate,
            next,
            known.commits.len() - 1,
        ),
{
    let short = without_head(known);
    let n = known.commits.len() as int;
    assert(!is_cut(known, k, candidate, 0, start)) by {
        assert forall|p: int|
            #![trigger known.commits[0].parents[p]]
            0 <= p < known.commits[0].parents.len() implies !(before(known, 0, start, p) is Cut) by {
            assert(p == 0);
        }
    }
    if cut_before(known, k, candidate, start, n) {
        let (i, version) = choose|i: int, version: VersionView|
            0 <= i < n && #[trigger] reaches(known, k, candidate, start, i, version) && is_cut(
                known,
                k,
                candidate,
                i,
                version,
            );
        assert(i > 0);
        lemma_reach_shifts(known, k, candidate, start, next, i, version);
        lemma_one_shifts(known, k, candidate, i, version);
        assert(reaches(short, k, candidate, next, i - 1, version));
    }
    if cut_before(short, k, candidate, next, n - 1) {
        let (i, version) = choose|i: int, version: VersionView|
            0 <= i < n - 1 && #[trigger] reaches(short, k, candidate, next, i, version) && is_cut(
                short,
                k,
                candidate,
                i,
                version,
            );
        lemma_reach_shifts(known, k, candidate, start, next, i + 1, version);
        lemma_one_shifts(known, k, candidate, i + 1, version);
        assert(reaches(known, k, candidate, start, i + 1, version));
    }
}

/// `HEAD` has one parent, the commit listed behind it, and `changes` lead from
/// there to it.
pub open spec fn follows_with(known: KnownView, changes: Seq<ChangeView>) -> bool {
    &&& known.commits.len() > 1
    &&& known.commits[0].parents == seq![known.commits[1].sha]
    &&& edge_answer(known.edges, known.commits[0].sha, known.commits[1].sha) == Answer::Given(
        changes,
    )
}

/// A commit that edited the file while it stayed over the soft limit adds one to
/// the count, and leaves its completeness as it was before that commit: what
/// was staged then is what `HEAD` is now.
pub proof fn lemma_edit_adds_one(
    after: EvidenceView,
    earlier: EvidenceView,
    k: int,
    candidate: Candidate,
    start: VersionView,
    changes: Seq<ChangeView>,
    from: Text,
    blob: Text,
)
    requires
        walked_from(after, candidate) == Some(start),
        walked_from(earlier, candidate) == Some(VersionView { path: from, blob }),
        earlier.known == without_head(after.known),
        follows_with(after.known, changes),
        is_over_soft(after.known, k, candidate, 0, start),
        says_came_from(changes, start.path, from, blob),
    ensures
        edit_count(after, k, candidate) == edit_count(earlier, k, candidate) + 1,
        is_complete(after, k, candidate) == is_complete(earlier, k, candidate),
{
    let known = after.known;
    let next = VersionView { path: from, blob };
    lemma_stands_over(known, k, candidate, 0, start);
    let c = choose|c: int|
        #![trigger changes[c]]
        {
            &&& 0 <= c < changes.len()
            &&& changes[c].new_path == start.path
            &&& changes[c].old_path == from
            &&& changes[c].old_blob == blob
            &&& changes[c].status == Status::Modified || changes[c].status == Status::Renamed
                || changes[c].status == Status::Other
            &&& forall|d: int|
                #![trigger changes[d]]
                0 <= d < c ==> changes[d].new_path != start.path || changes[d].status
                    == Status::Deleted
        };
    lemma_change_at(changes, start.path, c);
    assert(known.commits[0].parents[0] == known.commits[1].sha);
    assert(place_from(known.commits, 1, known.commits[1].sha) == Some(1int));
    assert(before(known, 0, start, 0) == Before::Other { place: 1, version: next });
    assert(leaves_for(known, k, candidate, start, next));
    assert(is_edit(known, 0, start));
    lemma_edits_shift(known, k, candidate, start, next, known.commits.len() as int);
    lemma_cut_shifts(known, k, candidate, start, next);
}

/// A commit that left the file alone changes neither the count nor its
/// completeness.
pub proof fn lemma_untouched_adds_nothing(
    after: EvidenceView,
    earlier: EvidenceView,
    k: int,
    candidate: Candidate,
    start: VersionView,
    changes: Seq<ChangeView>,
)
    requires
        walked_from(after, candidate) == Some(start),
        walked_from(earlier, candidate) == Some(start),
        earlier.known == without_head(after.known),
        follows_with(after.known, changes),
        is_over_soft(after.known, k, candidate, 0, start),
        says_nothing_of(changes, start.path),
    ensures
        edit_count(after, k, candidate) == edit_count(earlier, k, candidate),
        is_complete(after, k, candidate) == is_complete(earlier, k, candidate),
{
    let known = after.known;
    lemma_stands_over(known, k, candidate, 0, start);
    lemma_change_at(changes, start.path, changes.len() as int);
    assert(known.commits[0].parents[0] == known.commits[1].sha);
    assert(place_from(known.commits, 1, known.commits[1].sha) == Some(1int));
    assert(before(known, 0, start, 0) == Before::Same { place: 1 });
    assert(leaves_for(known, k, candidate, start, start));
    assert(!is_edit(known, 0, start)) by {
        assert(known.commits[0].parents[0] == known.commits[1].sha);
    }
    lemma_edits_shift(known, k, candidate, start, start, known.commits.len() as int);
    lemma_cut_shifts(known, k, candidate, start, start);
}

/// Where the changes from a parent of an edit over the soft limit cannot be had,
/// or the parent itself is not known, nothing is proved.
pub proof fn lemma_lost_parent_proves_nothing(
    e: EvidenceView,
    k: int,
    candidate: Candidate,
    start: VersionView,
    i: int,
    version: VersionView,
    p: int,
)
    requires
        walked_from(e, candidate) == Some(start),
        0 <= i < e.known.commits.len(),
        reaches(e.known, k, candidate, start, i, version),
        is_over_soft(e.known, k, candidate, i, version),
        0 <= p < e.known.commits[i].parents.len(),
        edge_answer(e.known.edges, e.known.commits[i].sha, e.known.commits[i].parents[p])
            == Answer::<Seq<ChangeView>>::Unavailable || (edge_answer(
            e.known.edges,
            e.known.commits[i].sha,
            e.known.commits[i].parents[p],
        ) matches Answer::Given(changes) && says_nothing_of(changes, version.path) && forall|j: int|
            #![trigger e.known.commits[j]]
            i < j < e.known.commits.len() ==> e.known.commits[j].sha
                != e.known.commits[i].parents[p]),
    ensures
        !is_complete(e, k, candidate),
{
    let known = e.known;
    lemma_stands_over(known, k, candidate, i, version);
    let parent = known.commits[i].parents[p];
    if let Answer::Given(changes) = edge_answer(known.edges, known.commits[i].sha, parent) {
        lemma_change_at(changes, version.path, changes.len() as int);
        lemma_no_place(known.commits, i + 1, parent);
    }
    assert(before(known, i, version, p) is Cut);
    assert(is_cut(known, k, candidate, i, version));
}

proof fn lemma_no_place(commits: Seq<CommitView>, from: int, sha: Text)
    requires
        forall|j: int| #![trigger commits[j]] from <= j < commits.len() ==> commits[j].sha != sha,
    ensures
        place_from(commits, from, sha) is None,
    decreases commits.len() - from,
{
    if 0 <= from < commits.len() {
        lemma_no_place(commits, from + 1, sha);
    }
}

// ---------------------------------------------------------------------------
// Merges
// ---------------------------------------------------------------------------

proof fn lemma_first_place(commits: Seq<CommitView>, from: int, j: int)
    requires
        0 <= from <= j < commits.len(),
        forall|m: int| #![trigger commits[m]] from <= m < j ==> commits[m].sha != commits[j].sha,
    ensures
        place_from(commits, from, commits[j].sha) == Some(j),
    decreases j - from,
{
    if from < j {
        lemma_first_place(commits, from + 1, j);
    }
}

/// The walk follows a version over the soft limit to every parent that has the
/// file: under the name and with the blob that it had there.
pub proof fn lemma_every_parent_is_followed(
    known: KnownView,
    k: int,
    candidate: Candidate,
    start: VersionView,
    i: int,
    version: VersionView,
    p: int,
    j: int,
    changes: Seq<ChangeView>,
    from: Text,
    blob: Text,
)
    requires
        0 <= i < j < known.commits.len(),
        reaches(known, k, candidate, start, i, version),
        is_over_soft(known, k, candidate, i, version),
        0 <= p < known.commits[i].parents.len(),
        known.commits[i].parents[p] == known.commits[j].sha,
        forall|m: int|
            #![trigger known.commits[m]]
            i < m < j ==> known.commits[m].sha != known.commits[j].sha,
        edge_answer(known.edges, known.commits[i].sha, known.commits[j].sha) == Answer::Given(
            changes,
        ),
    ensures
        says_nothing_of(changes, version.path) ==> reaches(
            known,
            k,
            candidate,
            start,
            j,
            version,
        ),
        says_came_from(changes, version.path, from, blob) ==> reaches(
            known,
            k,
            candidate,
            start,
            j,
            VersionView { path: from, blob },
        ),
{
    lemma_stands_over(known, k, candidate, i, version);
    lemma_first_place(known.commits, i + 1, j);
    if says_nothing_of(changes, version.path) {
        lemma_change_at(changes, version.path, changes.len() as int);
        assert(steps(known, k, candidate, i, version, p, j, version));
    }
    if says_came_from(changes, version.path, from, blob) {
        let c = choose|c: int|
            #![trigger changes[c]]
            {
                &&& 0 <= c < changes.len()
                &&& changes[c].new_path == version.path
                &&& changes[c].old_path == from
                &&& changes[c].old_blob == blob
                &&& changes[c].status == Status::Modified || changes[c].status == Status::Renamed
                    || changes[c].status == Status::Other
                &&& forall|d: int|
                    #![trigger changes[d]]
                    0 <= d < c ==> changes[d].new_path != version.path || changes[d].status
                        == Status::Deleted
            };
        lemma_change_at(changes, version.path, c);
        assert(steps(
            known,
            k,
            candidate,
            i,
            version,
            p,
            j,
            VersionView { path: from, blob },
        ));
    }
}

/// A merge that took the version of one of its parents is no edit of its own: a
/// commit counts only for a version that every one of its parents lacks.
pub proof fn lemma_merge_counts_only_what_it_made(
    known: KnownView,
    k: int,
    candidate: Candidate,
    start: VersionView,
    i: int,
    p: int,
    changes: Seq<ChangeView>,
)
    requires
        0 <= i < known.commits.len(),
        0 <= p < known.commits[i].parents.len(),
        edge_answer(known.edges, known.commits[i].sha, known.commits[i].parents[p])
            == Answer::Given(changes),
        forall|version: VersionView| #[trigger]
            reaches(known, k, candidate, start, i, version) ==> says_nothing_of(
                changes,
                version.path,
            ),
    ensures
        edits_before(known, k, candidate, start, i + 1) == edits_before(
            known,
            k,
            candidate,
            start,
            i,
        ),
{
    if edits_at(known, k, candidate, start, i) {
        let version = choose|version: VersionView| #[trigger]
            reaches(known, k, candidate, start, i, version) && standing(
                known,
                k,
                candidate,
                i,
                version,
            ) == Standing::Over && is_edit(known, i, version);
        lemma_change_at(changes, version.path, changes.len() as int);
        assert(known.commits[i].parents[p] == known.commits[i].parents[p]);
    }
}

/// A merge resolution over the soft limit that differs from the version of every
/// parent, or that no parent has, counts as one edit.
pub proof fn lemma_merge_counts_what_it_made(
    known: KnownView,
    k: int,
    candidate: Candidate,
    start: VersionView,
    i: int,
    version: VersionView,
)
    requires
        0 <= i < known.commits.len(),
        reaches(known, k, candidate, start, i, version),
        is_over_soft(known, k, candidate, i, version),
        forall|p: int|
            #![trigger known.commits[i].parents[p]]
            0 <= p < known.commits[i].parents.len() ==> (edge_answer(
                known.edges,
                known.commits[i].sha,
                known.commits[i].parents[p],
            ) matches Answer::Given(changes) && !says_nothing_of(changes, version.path)) && exists|
                j: int,
            |
                #![trigger known.commits[j]]
                i < j < known.commits.len() && known.commits[j].sha == known.commits[i].parents[p],
    ensures
        edits_before(known, k, candidate, start, i + 1) == edits_before(
            known,
            k,
            candidate,
            start,
            i,
        ) + 1,
{
    lemma_stands_over(known, k, candidate, i, version);
    assert forall|p: int|
        #![trigger known.commits[i].parents[p]]
        0 <= p < known.commits[i].parents.len() implies before(known, i, version, p) is Absent
        || before(known, i, version, p) is Other by {
        let parent = known.commits[i].parents[p];
        let changes = edge_answer(known.edges, known.commits[i].sha, parent)->Given_0;
        lemma_some_change(changes, version.path);
        let j = choose|j: int|
            #![trigger known.commits[j]]
            i < j < known.commits.len() && known.commits[j].sha == parent;
        lemma_some_place(known.commits, i + 1, j);
    }
    assert(is_edit(known, i, version));
    assert(edits_at(known, k, candidate, start, i));
}

proof fn lemma_some_change(changes: Seq<ChangeView>, path: Text)
    requires
        !says_nothing_of(changes, path),
    ensures
        change_at(changes, path) is Some,
    decreases changes.len(),
{
    let c = choose|c: int|
        #![trigger changes[c]]
        0 <= c < changes.len() && !(changes[c].new_path != path || changes[c].status
            == Status::Deleted);
    if !(changes[0].new_path == path && changes[0].status != Status::Deleted) {
        let rest = changes.drop_first();
        assert(rest[c - 1] == changes[c]);
        lemma_some_change(rest, path);
    }
}

proof fn lemma_some_place(commits: Seq<CommitView>, from: int, j: int)
    requires
        0 <= from <= j < commits.len(),
    ensures
        place_from(commits, from, commits[j].sha) is Some,
    decreases j - from,
{
    if from < j && commits[from].sha != commits[j].sha {
        lemma_some_place(commits, from + 1, j);
    }
}

// ---------------------------------------------------------------------------
// What is asked
// ---------------------------------------------------------------------------

/// Of every version that the walk reaches at a commit with known parents, what
/// is not yet known is asked: first whether its name is governed, then its
/// measure, and of one over the soft limit what changed from each parent.
pub proof fn lemma_what_is_asked(
    known: KnownView,
    k: int,
    candidate: Candidate,
    start: VersionView,
    i: int,
    version: VersionView,
    p: int,
)
    requires
        0 <= i < known.commits.len(),
        reaches(known, k, candidate, start, i, version),
        !known.shallow.contains(known.commits[i].sha),
    ensures
        name_answer(known.names, k, version.path) == Answer::<bool>::Open ==> name_asked(
            known,
            k,
            candidate,
            start,
            known.commits.len() as int,
            (k, version.path),
        ),
        name_answer(known.names, k, version.path) == Answer::Given(true) && version_answer(
            known.versions,
            version,
        ) == Answer::<FileMeasurement>::Open ==> version_asked(
            known,
            k,
            candidate,
            start,
            known.commits.len() as int,
            version,
        ),
        is_over_soft(known, k, candidate, i, version) && 0 <= p < known.commits[i].parents.len()
            && edge_answer(known.edges, known.commits[i].sha, known.commits[i].parents[p])
            == Answer::<Seq<ChangeView>>::Open ==> edge_asked(
            known,
            k,
            candidate,
            start,
            known.commits.len() as int,
            (known.commits[i].sha, known.commits[i].parents[p]),
        ),
{
    if is_over_soft(known, k, candidate, i, version) {
        lemma_stands_over(known, k, candidate, i, version);
    }
    if 0 <= p < known.commits[i].parents.len() && edge_answer(
        known.edges,
        known.commits[i].sha,
        known.commits[i].parents[p],
    ) == Answer::<Seq<ChangeView>>::Open && is_over_soft(known, k, candidate, i, version) {
        let edge = (known.commits[i].sha, known.commits[i].parents[p]);
        assert(before(known, i, version, p) is Open);
        assert(known.commits[i].parents[p] == edge.1);
        assert(asks_edge(known, k, candidate, i, version, edge));
    }
}

/// Only what is not known of a version that the walk reaches is asked, and no
/// parent of one that ends the run.
pub proof fn lemma_what_is_not_asked(
    known: KnownView,
    k: int,
    candidate: Candidate,
    start: VersionView,
    n: int,
    name: (int, Text),
    asked: VersionView,
    edge: (Text, Text),
)
    ensures
        name_asked(known, k, candidate, start, n, name) ==> name.0 == k && name_answer(
            known.names,
            k,
            name.1,
        ) == Answer::<bool>::Open && exists|i: int, version: VersionView| #[trigger]
            reaches(known, k, candidate, start, i, version) && 0 <= i < n && version.path == name.1,
        version_asked(known, k, candidate, start, n, asked) ==> version_answer(
            known.versions,
            asked,
        ) == Answer::<FileMeasurement>::Open && name_answer(known.names, k, asked.path)
            == Answer::Given(true) && exists|i: int| #[trigger]
            reaches(known, k, candidate, start, i, asked) && 0 <= i < n,
        edge_asked(known, k, candidate, start, n, edge) ==> edge_answer(
            known.edges,
            edge.0,
            edge.1,
        ) == Answer::<Seq<ChangeView>>::Open && exists|i: int, version: VersionView| #[trigger]
            reaches(known, k, candidate, start, i, version) && 0 <= i < n && known.commits[i].sha
                == edge.0 && known.commits[i].parents.contains(edge.1) && !ends_the_run(
                known,
                k,
                candidate,
                i,
                version,
            ),
{
    if name_asked(known, k, candidate, start, n, name) {
        let (i, version) = choose|i: int, version: VersionView|
            0 <= i < n && #[trigger] reaches(known, k, candidate, start, i, version) && asks_name(
                known,
                k,
                candidate,
                i,
                version,
                name,
            );
        assert(version.path == name.1);
    }
    if version_asked(known, k, candidate, start, n, asked) {
        let (i, version) = choose|i: int, version: VersionView|
            0 <= i < n && #[trigger] reaches(known, k, candidate, start, i, version)
                && asks_version(known, k, candidate, i, version, asked);
        assert(version == asked);
    }
    if edge_asked(known, k, candidate, start, n, edge) {
        let (i, version) = choose|i: int, version: VersionView|
            0 <= i < n && #[trigger] reaches(known, k, candidate, start, i, version) && asks_edge(
                known,
                k,
                candidate,
                i,
                version,
                edge,
            );
        if ends_the_run(known, k, candidate, i, version) {
            lemma_stands_closed(known, k, candidate, i, version);
        }
        let parents = known.commits[i].parents;
        let p = choose|p: int|
            #![trigger known.commits[i].parents[p]]
            0 <= p < known.commits[i].parents.len() && known.commits[i].parents[p] == edge.1
                && before(known, i, version, p) is Open;
        assert(parents.contains(parents[p]));
    }
}

} // verus!
