//! What holds of every count of soft edits.

use vstd::prelude::*;

use super::changes::{SeedView, VersionView};
use super::edits::{
    are_open, are_questions, candidate_seed, edit_count, is_complete, is_soft_edit, walked_from,
    wants_edge, wants_name, wants_version, EvidenceView, SoftEdit,
};
use super::evidence::{
    edge_answer, name_answer, version_answer, Answer, Candidate, EdgeAnswerView, KnownView,
    NameAnswerView, VersionAnswerView,
};
use super::walk::{
    asks_edge, asks_name, asks_version, before, cut_before, edge_asked, edits_at, edits_before,
    is_cut, is_edit, name_asked, reaches, standing, steps, version_asked, Questions, Standing,
};
use crate::text::Text;

verus! {

/// Every commit adds at most one edit, and adds it exactly when it edited the
/// file while that stayed over the soft limit.
pub proof fn lemma_one_edit_per_commit(
    known: KnownView,
    k: int,
    candidate: Candidate,
    start: VersionView,
    n: int,
)
    requires
        0 <= n,
    ensures
        edits_before(known, k, candidate, start, n + 1) == edits_before(
            known,
            k,
            candidate,
            start,
            n,
        ) + (if edits_at(known, k, candidate, start, n) {
            1int
        } else {
            0
        }),
        0 <= edits_before(known, k, candidate, start, n) <= n,
    decreases n,
{
    if n > 0 {
        lemma_one_edit_per_commit(known, k, candidate, start, n - 1);
    }
}

/// The staged edit counts: no count is below one.
pub proof fn lemma_staged_edit_counts(e: EvidenceView, k: int, candidate: Candidate)
    ensures
        edit_count(e, k, candidate) >= 1,
{
    if let Some(start) = walked_from(e, candidate) {
        lemma_one_edit_per_commit(e.known, k, candidate, start, e.known.commits.len() as int);
    }
}

/// History that is not proved complete never blocks a commit, whatever count
/// is visible.
pub proof fn lemma_incomplete_never_blocks(
    e: EvidenceView,
    k: int,
    candidate: Candidate,
    edit: SoftEdit,
)
    requires
        is_soft_edit(e, k, candidate, edit),
        !is_complete(e, k, candidate),
    ensures
        !edit.is_promoted(),
{
}

/// With complete history a commit is blocked exactly when the count reaches the
/// candidate's own limit.
pub proof fn lemma_limit_blocks(e: EvidenceView, k: int, candidate: Candidate, edit: SoftEdit)
    requires
        is_soft_edit(e, k, candidate, edit),
        is_complete(e, k, candidate),
    ensures
        edit.is_promoted() <==> edit_count(e, k, candidate) >= candidate.edit_limit,
{
}

/// A file that is new in the staged commit is at its first edit, and that is
/// proved.
pub proof fn lemma_new_file_is_first_edit(e: EvidenceView, k: int, candidate: Candidate)
    requires
        candidate_seed(e, candidate) == Some(SeedView::Absent),
    ensures
        edit_count(e, k, candidate) == 1,
        is_complete(e, k, candidate),
{
}

/// A walk goes past a version only where that stayed over the soft limit.
pub proof fn lemma_only_over_soft_is_passed(
    known: KnownView,
    k: int,
    candidate: Candidate,
    start: VersionView,
    j: int,
    version: VersionView,
) -> (r: (int, VersionView))
    requires
        j > 0,
        reaches(known, k, candidate, start, j, version),
    ensures
        0 <= r.0 < j,
        reaches(known, k, candidate, start, r.0, r.1),
        standing(known, k, candidate, r.0, r.1) == Standing::Over,
{
    let (i, earlier, p) = choose|i: int, earlier: VersionView, p: int|
        {
            &&& #[trigger] steps(known, k, candidate, i, earlier, p, j, version)
            &&& 0 <= i < j
            &&& reaches(known, k, candidate, start, i, earlier)
        };
    (i, earlier)
}

/// Unless the version at `HEAD` is over the soft limit, nothing behind it is
/// reached.
proof fn lemma_nothing_behind(
    known: KnownView,
    k: int,
    candidate: Candidate,
    start: VersionView,
    j: int,
    version: VersionView,
)
    requires
        standing(known, k, candidate, 0, start) != Standing::Over,
        j > 0,
    ensures
        !reaches(known, k, candidate, start, j, version),
    decreases j,
{
    if reaches(known, k, candidate, start, j, version) {
        let (i, earlier) = lemma_only_over_soft_is_passed(known, k, candidate, start, j, version);
        if i > 0 {
            lemma_nothing_behind(known, k, candidate, start, i, earlier);
        }
    }
}

proof fn lemma_no_edits_behind(
    known: KnownView,
    k: int,
    candidate: Candidate,
    start: VersionView,
    n: int,
)
    requires
        standing(known, k, candidate, 0, start) != Standing::Over,
    ensures
        edits_before(known, k, candidate, start, n) == 0,
    decreases n,
{
    if n > 0 {
        lemma_no_edits_behind(known, k, candidate, start, n - 1);
        if edits_at(known, k, candidate, start, n - 1) {
            let version = choose|version: VersionView| #[trigger]
                reaches(known, k, candidate, start, n - 1, version) && standing(
                    known,
                    k,
                    candidate,
                    n - 1,
                    version,
                ) == Standing::Over && is_edit(known, n - 1, version);
            if n - 1 > 0 {
                lemma_nothing_behind(known, k, candidate, start, n - 1, version);
            }
        }
    }
}

/// A committed version at or below the soft limit resets the run: the staged
/// crossing is edit one, that is proved, and nothing older is asked for.
pub proof fn lemma_reset_starts_again(
    e: EvidenceView,
    k: int,
    candidate: Candidate,
    start: VersionView,
)
    requires
        walked_from(e, candidate) == Some(start),
        standing(e.known, k, candidate, 0, start) == Standing::Closed,
    ensures
        edit_count(e, k, candidate) == 1,
        is_complete(e, k, candidate),
        forall|version: VersionView| !#[trigger]
            version_asked(
                e.known,
                k,
                candidate,
                start,
                e.known.commits.len() as int,
                version,
            ),
{
    let n = e.known.commits.len() as int;
    lemma_no_edits_behind(e.known, k, candidate, start, n);
    assert forall|i: int, version: VersionView|
        0 <= i < n && #[trigger] reaches(e.known, k, candidate, start, i, version) implies i == 0
        && version == start by {
        if i > 0 {
            lemma_nothing_behind(e.known, k, candidate, start, i, version);
        }
    }
}

/// A `HEAD` whose parents are cut off proves nothing but the staged edit.
pub proof fn lemma_shallow_head_proves_nothing(
    e: EvidenceView,
    k: int,
    candidate: Candidate,
    start: VersionView,
)
    requires
        walked_from(e, candidate) == Some(start),
        e.known.shallow.contains(e.known.commits[0].sha),
    ensures
        edit_count(e, k, candidate) == 1,
        !is_complete(e, k, candidate),
{
    let n = e.known.commits.len() as int;
    lemma_no_edits_behind(e.known, k, candidate, start, n);
    assert(reaches(e.known, k, candidate, start, 0, start));
    assert(is_cut(e.known, k, candidate, 0, start));
}

/// A merge whose version stands at one of its parents imports history: it is no
/// edit.
pub proof fn lemma_import_is_no_edit(known: KnownView, i: int, version: VersionView, p: int)
    requires
        0 <= p < known.commits[i].parents.len(),
        before(known, i, version, p) is Same,
    ensures
        !is_edit(known, i, version),
{
    assert(known.commits[i].parents[p] == known.commits[i].parents[p]);
}

/// A merge resolution over the soft limit that is distinct from the version of
/// every parent counts, once.
pub proof fn lemma_resolution_counts_once(
    known: KnownView,
    k: int,
    candidate: Candidate,
    start: VersionView,
    i: int,
    version: VersionView,
)
    requires
        0 <= i,
        reaches(known, k, candidate, start, i, version),
        standing(known, k, candidate, i, version) == Standing::Over,
        forall|p: int|
            0 <= p < known.commits[i].parents.len() ==> (#[trigger] before(known, i, version, p))
                is Other,
    ensures
        edits_before(known, k, candidate, start, i + 1) == edits_before(
            known,
            k,
            candidate,
            start,
            i,
        ) + 1,
{
    assert(is_edit(known, i, version));
    assert(edits_at(known, k, candidate, start, i));
}

/// A version under a name that the rule does not govern ends the run; it is
/// neither measured nor followed.
pub proof fn lemma_ungoverned_name_ends_the_run(
    known: KnownView,
    k: int,
    candidate: Candidate,
    i: int,
    version: VersionView,
)
    requires
        !known.shallow.contains(known.commits[i].sha),
        name_answer(known.names, k, version.path) == Answer::Given(false),
    ensures
        standing(known, k, candidate, i, version) == Standing::Closed,
        forall|x: VersionView| !#[trigger] asks_version(known, k, candidate, i, version, x),
        forall|x: (Text, Text)| !#[trigger] asks_edge(known, k, candidate, i, version, x),
        forall|p: int, j: int, next: VersionView| !#[trigger]
            steps(known, k, candidate, i, version, p, j, next),
{
}

/// A version over the soft limit in a commit without parents is an edit, and
/// the absence before it closes that line.
pub proof fn lemma_root_closes(
    known: KnownView,
    k: int,
    candidate: Candidate,
    i: int,
    version: VersionView,
)
    requires
        known.commits[i].parents.len() == 0,
        standing(known, k, candidate, i, version) == Standing::Over,
    ensures
        is_edit(known, i, version),
        !is_cut(known, k, candidate, i, version),
{
}

/// Every answer that `some` holds, `more` holds too.
pub open spec fn extends(some: KnownView, more: KnownView) -> bool {
    &&& some.commits == more.commits
    &&& some.shallow == more.shallow
    &&& forall|k: int, path: Text|
        !(#[trigger] name_answer(some.names, k, path) is Open) ==> name_answer(more.names, k, path)
            == name_answer(some.names, k, path)
    &&& forall|version: VersionView|
        !(#[trigger] version_answer(some.versions, version) is Open) ==> version_answer(
            more.versions,
            version,
        ) == version_answer(some.versions, version)
    &&& forall|child: Text, parent: Text|
        !(#[trigger] edge_answer(some.edges, child, parent) is Open) ==> edge_answer(
            more.edges,
            child,
            parent,
        ) == edge_answer(some.edges, child, parent)
}

/// The walk of a candidate has no question left.
pub open spec fn is_answered(
    known: KnownView,
    k: int,
    candidate: Candidate,
    start: VersionView,
) -> bool {
    let n = known.commits.len() as int;
    &&& forall|x: (int, Text)| !#[trigger] name_asked(known, k, candidate, start, n, x)
    &&& forall|x: VersionView| !#[trigger] version_asked(known, k, candidate, start, n, x)
    &&& forall|x: (Text, Text)| !#[trigger] edge_asked(known, k, candidate, start, n, x)
}

/// A version that is reached with no question left is seen alike with more
/// answers.
proof fn lemma_seen_alike(
    some: KnownView,
    more: KnownView,
    k: int,
    candidate: Candidate,
    start: VersionView,
    i: int,
    version: VersionView,
)
    requires
        extends(some, more),
        is_answered(some, k, candidate, start),
        0 <= i < some.commits.len(),
        reaches(some, k, candidate, start, i, version),
    ensures
        standing(more, k, candidate, i, version) == standing(some, k, candidate, i, version),
        standing(some, k, candidate, i, version) == Standing::Over ==> forall|p: int|
            0 <= p < some.commits[i].parents.len() ==> #[trigger] before(more, i, version, p)
                == before(some, i, version, p),
{
    let n = some.commits.len() as int;
    let name = (k, version.path);
    if standing(some, k, candidate, i, version) == Standing::NameOpen {
        assert(asks_name(some, k, candidate, i, version, name));
        assert(name_asked(some, k, candidate, start, n, name));
    }
    if standing(some, k, candidate, i, version) == Standing::VersionOpen {
        assert(asks_version(some, k, candidate, i, version, version));
        assert(version_asked(some, k, candidate, start, n, version));
    }
    assert(!(name_answer(some.names, k, version.path) is Open) || some.shallow.contains(
        some.commits[i].sha,
    ));
    assert(version_answer(some.versions, version) is Open || version_answer(
        more.versions,
        version,
    ) == version_answer(some.versions, version));
    if standing(some, k, candidate, i, version) == Standing::Over {
        assert forall|p: int| 0 <= p < some.commits[i].parents.len() implies #[trigger] before(
            more,
            i,
            version,
            p,
        ) == before(some, i, version, p) by {
            let edge = (some.commits[i].sha, some.commits[i].parents[p]);
            if edge_answer(some.edges, edge.0, edge.1) is Open {
                assert(before(some, i, version, p) is Open);
                assert(some.commits[i].parents[p] == edge.1);
                assert(asks_edge(some, k, candidate, i, version, edge));
                assert(edge_asked(some, k, candidate, start, n, edge));
            }
        }
    }
}

proof fn lemma_reaches_alike(
    some: KnownView,
    more: KnownView,
    k: int,
    candidate: Candidate,
    start: VersionView,
    j: int,
    version: VersionView,
)
    requires
        extends(some, more),
        is_answered(some, k, candidate, start),
        j < some.commits.len(),
    ensures
        reaches(more, k, candidate, start, j, version) == reaches(
            some,
            k,
            candidate,
            start,
            j,
            version,
        ),
    decreases j,
{
    if j > 0 {
        if reaches(some, k, candidate, start, j, version) {
            let (i, earlier, p) = choose|i: int, earlier: VersionView, p: int|
                {
                    &&& #[trigger] steps(some, k, candidate, i, earlier, p, j, version)
                    &&& 0 <= i < j
                    &&& reaches(some, k, candidate, start, i, earlier)
                };
            lemma_reaches_alike(some, more, k, candidate, start, i, earlier);
            lemma_seen_alike(some, more, k, candidate, start, i, earlier);
            assert(before(more, i, earlier, p) == before(some, i, earlier, p));
            assert(steps(more, k, candidate, i, earlier, p, j, version));
        }
        if reaches(more, k, candidate, start, j, version) {
            let (i, earlier, p) = choose|i: int, earlier: VersionView, p: int|
                {
                    &&& #[trigger] steps(more, k, candidate, i, earlier, p, j, version)
                    &&& 0 <= i < j
                    &&& reaches(more, k, candidate, start, i, earlier)
                };
            lemma_reaches_alike(some, more, k, candidate, start, i, earlier);
            lemma_seen_alike(some, more, k, candidate, start, i, earlier);
            assert(before(more, i, earlier, p) == before(some, i, earlier, p));
            assert(steps(some, k, candidate, i, earlier, p, j, version));
        }
    }
}

proof fn lemma_commit_alike(
    some: KnownView,
    more: KnownView,
    k: int,
    candidate: Candidate,
    start: VersionView,
    i: int,
    version: VersionView,
)
    requires
        extends(some, more),
        is_answered(some, k, candidate, start),
        0 <= i < some.commits.len(),
        reaches(some, k, candidate, start, i, version),
    ensures
        standing(more, k, candidate, i, version) == standing(some, k, candidate, i, version),
        standing(some, k, candidate, i, version) == Standing::Over ==> is_edit(more, i, version)
            == is_edit(some, i, version),
        is_cut(more, k, candidate, i, version) == is_cut(some, k, candidate, i, version),
{
    lemma_seen_alike(some, more, k, candidate, start, i, version);
    if standing(some, k, candidate, i, version) == Standing::Over {
        assert forall|p: int|
            #![trigger some.commits[i].parents[p]]
            0 <= p < some.commits[i].parents.len() implies before(more, i, version, p) == before(
            some,
            i,
            version,
            p,
        ) by {}
    }
}

proof fn lemma_edits_alike(
    some: KnownView,
    more: KnownView,
    k: int,
    candidate: Candidate,
    start: VersionView,
    n: int,
)
    requires
        extends(some, more),
        is_answered(some, k, candidate, start),
        n <= some.commits.len(),
    ensures
        edits_before(more, k, candidate, start, n) == edits_before(some, k, candidate, start, n),
    decreases n,
{
    if n > 0 {
        let i = n - 1;
        lemma_edits_alike(some, more, k, candidate, start, i);
        if edits_at(some, k, candidate, start, i) {
            let version = choose|version: VersionView| #[trigger]
                reaches(some, k, candidate, start, i, version) && standing(
                    some,
                    k,
                    candidate,
                    i,
                    version,
                ) == Standing::Over && is_edit(some, i, version);
            lemma_reaches_alike(some, more, k, candidate, start, i, version);
            lemma_commit_alike(some, more, k, candidate, start, i, version);
            assert(reaches(more, k, candidate, start, i, version));
        }
        if edits_at(more, k, candidate, start, i) {
            let version = choose|version: VersionView| #[trigger]
                reaches(more, k, candidate, start, i, version) && standing(
                    more,
                    k,
                    candidate,
                    i,
                    version,
                ) == Standing::Over && is_edit(more, i, version);
            lemma_reaches_alike(some, more, k, candidate, start, i, version);
            lemma_commit_alike(some, more, k, candidate, start, i, version);
            assert(reaches(some, k, candidate, start, i, version));
        }
    }
}

/// Asking only what the walk needs changes nothing: once no question is left,
/// more answers give the same count and the same completeness.
pub proof fn lemma_answers_suffice(
    some: EvidenceView,
    more: EvidenceView,
    k: int,
    candidate: Candidate,
)
    requires
        some.staged == more.staged,
        some.shallow_listed == more.shallow_listed,
        extends(some.known, more.known),
        walked_from(some, candidate) matches Some(start) ==> is_answered(
            some.known,
            k,
            candidate,
            start,
        ),
    ensures
        edit_count(more, k, candidate) == edit_count(some, k, candidate),
        is_complete(more, k, candidate) == is_complete(some, k, candidate),
{
    if let Some(start) = walked_from(some, candidate) {
        let n = some.known.commits.len() as int;
        lemma_edits_alike(some.known, more.known, k, candidate, start, n);
        if cut_before(some.known, k, candidate, start, n) {
            let (i, version) = choose|i: int, version: VersionView|
                0 <= i < n && #[trigger] reaches(some.known, k, candidate, start, i, version)
                    && is_cut(some.known, k, candidate, i, version);
            lemma_reaches_alike(some.known, more.known, k, candidate, start, i, version);
            lemma_commit_alike(some.known, more.known, k, candidate, start, i, version);
            assert(reaches(more.known, k, candidate, start, i, version));
        }
        if cut_before(more.known, k, candidate, start, n) {
            let (i, version) = choose|i: int, version: VersionView|
                0 <= i < n && #[trigger] reaches(more.known, k, candidate, start, i, version)
                    && is_cut(more.known, k, candidate, i, version);
            lemma_reaches_alike(some.known, more.known, k, candidate, start, i, version);
            lemma_commit_alike(some.known, more.known, k, candidate, start, i, version);
            assert(reaches(some.known, k, candidate, start, i, version));
        }
    }
}

// ---------------------------------------------------------------------------
// Questions
// ---------------------------------------------------------------------------

/// Only what has no answer yet is asked: an answered question is never put
/// again.
pub proof fn lemma_questions_are_open(
    e: EvidenceView,
    candidates: Seq<Candidate>,
    n: int,
    questions: Questions,
)
    requires
        are_questions(e, candidates, n, questions),
    ensures
        are_open(e, questions),
{
}

/// A question that was answered once is not asked with more answers either.
pub proof fn lemma_answered_stays_answered(
    some: EvidenceView,
    more: EvidenceView,
    candidates: Seq<Candidate>,
    n: int,
    name: (int, Text),
    version: VersionView,
    edge: (Text, Text),
)
    requires
        extends(some.known, more.known),
    ensures
        !(name_answer(some.known.names, name.0, name.1) is Open) ==> !wants_name(
            more,
            candidates,
            n,
            name,
        ),
        !(version_answer(some.known.versions, version) is Open) ==> !wants_version(
            more,
            candidates,
            n,
            version,
        ),
        !(edge_answer(some.known.edges, edge.0, edge.1) is Open) ==> !wants_edge(
            more,
            candidates,
            n,
            edge,
        ),
{
}

proof fn lemma_name_answer_of_more(
    first: Seq<NameAnswerView>,
    rest: Seq<NameAnswerView>,
    k: int,
    path: Text,
)
    ensures
        name_answer(first + rest, k, path) == (if name_answer(first, k, path) is Open {
            name_answer(rest, k, path)
        } else {
            name_answer(first, k, path)
        }),
    decreases first.len(),
{
    if first.len() == 0 {
        assert(first + rest =~= rest);
    } else {
        assert((first + rest).drop_first() =~= first.drop_first() + rest);
        lemma_name_answer_of_more(first.drop_first(), rest, k, path);
    }
}

proof fn lemma_version_answer_of_more(
    first: Seq<VersionAnswerView>,
    rest: Seq<VersionAnswerView>,
    version: VersionView,
)
    ensures
        version_answer(first + rest, version) == (if version_answer(first, version) is Open {
            version_answer(rest, version)
        } else {
            version_answer(first, version)
        }),
    decreases first.len(),
{
    if first.len() == 0 {
        assert(first + rest =~= rest);
    } else {
        assert((first + rest).drop_first() =~= first.drop_first() + rest);
        lemma_version_answer_of_more(first.drop_first(), rest, version);
    }
}

proof fn lemma_edge_answer_of_more(
    first: Seq<EdgeAnswerView>,
    rest: Seq<EdgeAnswerView>,
    child: Text,
    parent: Text,
)
    ensures
        edge_answer(first + rest, child, parent) == (if edge_answer(first, child, parent) is Open {
            edge_answer(rest, child, parent)
        } else {
            edge_answer(first, child, parent)
        }),
    decreases first.len(),
{
    if first.len() == 0 {
        assert(first + rest =~= rest);
    } else {
        assert((first + rest).drop_first() =~= first.drop_first() + rest);
        lemma_edge_answer_of_more(first.drop_first(), rest, child, parent);
    }
}

/// Answers that are added behind what is known leave every answer as it was.
pub proof fn lemma_added_answers_extend(
    known: KnownView,
    names: Seq<NameAnswerView>,
    versions: Seq<VersionAnswerView>,
    edges: Seq<EdgeAnswerView>,
)
    ensures
        extends(
            known,
            KnownView {
                commits: known.commits,
                shallow: known.shallow,
                edges: known.edges + edges,
                names: known.names + names,
                versions: known.versions + versions,
            },
        ),
{
    assert forall|k: int, path: Text|
        !(#[trigger] name_answer(known.names, k, path) is Open) implies name_answer(
        known.names + names,
        k,
        path,
    ) == name_answer(known.names, k, path) by {
        lemma_name_answer_of_more(known.names, names, k, path);
    }
    assert forall|version: VersionView|
        !(#[trigger] version_answer(known.versions, version) is Open) implies version_answer(
        known.versions + versions,
        version,
    ) == version_answer(known.versions, version) by {
        lemma_version_answer_of_more(known.versions, versions, version);
    }
    assert forall|child: Text, parent: Text|
        !(#[trigger] edge_answer(known.edges, child, parent) is Open) implies edge_answer(
        known.edges + edges,
        child,
        parent,
    ) == edge_answer(known.edges, child, parent) by {
        lemma_edge_answer_of_more(known.edges, edges, child, parent);
    }
}

// ---------------------------------------------------------------------------
// Independence
// ---------------------------------------------------------------------------

/// The candidate `k` of one derivation and `j` of another see the same answers.
pub open spec fn sees_alike(a: KnownView, k: int, b: KnownView, j: int) -> bool {
    &&& a.commits == b.commits
    &&& a.shallow == b.shallow
    &&& a.edges == b.edges
    &&& a.versions == b.versions
    &&& forall|path: Text|
        #![trigger name_answer(a.names, k, path)]
        #![trigger name_answer(b.names, j, path)]
        name_answer(a.names, k, path) == name_answer(b.names, j, path)
}

proof fn lemma_reached_alike(
    a: KnownView,
    k: int,
    b: KnownView,
    j: int,
    candidate: Candidate,
    start: VersionView,
    at: int,
    version: VersionView,
)
    requires
        sees_alike(a, k, b, j),
        reaches(a, k, candidate, start, at, version),
    ensures
        reaches(b, j, candidate, start, at, version),
    decreases at,
{
    if at > 0 {
        let (i, earlier, p) = choose|i: int, earlier: VersionView, p: int|
            {
                &&& #[trigger] steps(a, k, candidate, i, earlier, p, at, version)
                &&& 0 <= i < at
                &&& reaches(a, k, candidate, start, i, earlier)
            };
        lemma_reached_alike(a, k, b, j, candidate, start, i, earlier);
        assert(standing(a, k, candidate, i, earlier) == standing(b, j, candidate, i, earlier));
        assert(before(a, i, earlier, p) == before(b, i, earlier, p));
        assert(steps(b, j, candidate, i, earlier, p, at, version));
    }
}

proof fn lemma_edited_alike(
    a: KnownView,
    k: int,
    b: KnownView,
    j: int,
    candidate: Candidate,
    start: VersionView,
    i: int,
)
    requires
        sees_alike(a, k, b, j),
        edits_at(a, k, candidate, start, i),
    ensures
        edits_at(b, j, candidate, start, i),
{
    let version = choose|version: VersionView| #[trigger]
        reaches(a, k, candidate, start, i, version) && standing(a, k, candidate, i, version)
            == Standing::Over && is_edit(a, i, version);
    lemma_reached_alike(a, k, b, j, candidate, start, i, version);
    assert(standing(b, j, candidate, i, version) == Standing::Over);
    assert forall|p: int|
        #![trigger b.commits[i].parents[p]]
        0 <= p < b.commits[i].parents.len() implies before(b, i, version, p) is Absent || before(
        b,
        i,
        version,
        p,
    ) is Other by {
        assert(a.commits[i].parents[p] == b.commits[i].parents[p]);
        assert(before(a, i, version, p) == before(b, i, version, p));
    }
}

proof fn lemma_counted_alike(
    a: KnownView,
    k: int,
    b: KnownView,
    j: int,
    candidate: Candidate,
    start: VersionView,
    n: int,
)
    requires
        sees_alike(a, k, b, j),
    ensures
        edits_before(a, k, candidate, start, n) == edits_before(b, j, candidate, start, n),
    decreases n,
{
    if n > 0 {
        lemma_counted_alike(a, k, b, j, candidate, start, n - 1);
        if edits_at(a, k, candidate, start, n - 1) {
            lemma_edited_alike(a, k, b, j, candidate, start, n - 1);
        }
        if edits_at(b, j, candidate, start, n - 1) {
            lemma_edited_alike(b, j, a, k, candidate, start, n - 1);
        }
    }
}

proof fn lemma_cut_alike(
    a: KnownView,
    k: int,
    b: KnownView,
    j: int,
    candidate: Candidate,
    start: VersionView,
    n: int,
)
    requires
        sees_alike(a, k, b, j),
        cut_before(a, k, candidate, start, n),
    ensures
        cut_before(b, j, candidate, start, n),
{
    let (i, version) = choose|i: int, version: VersionView|
        0 <= i < n && #[trigger] reaches(a, k, candidate, start, i, version) && is_cut(
            a,
            k,
            candidate,
            i,
            version,
        );
    lemma_reached_alike(a, k, b, j, candidate, start, i, version);
    assert(standing(a, k, candidate, i, version) == standing(b, j, candidate, i, version));
    if standing(a, k, candidate, i, version) == Standing::Over {
        let p = choose|p: int|
            #![trigger a.commits[i].parents[p]]
            0 <= p < a.commits[i].parents.len() && before(a, i, version, p) is Cut;
        assert(b.commits[i].parents[p] == a.commits[i].parents[p]);
        assert(before(b, i, version, p) is Cut);
    }
    assert(is_cut(b, j, candidate, i, version));
}

/// Every candidate is derived on its own: its count and its completeness do not
/// depend on the other candidates, on its place among them, or on what is known
/// of the names of others.
pub proof fn lemma_candidates_are_independent(
    a: EvidenceView,
    k: int,
    b: EvidenceView,
    j: int,
    candidate: Candidate,
)
    requires
        a.staged == b.staged,
        a.shallow_listed == b.shallow_listed,
        sees_alike(a.known, k, b.known, j),
    ensures
        edit_count(a, k, candidate) == edit_count(b, j, candidate),
        is_complete(a, k, candidate) == is_complete(b, j, candidate),
{
    if let Some(start) = walked_from(a, candidate) {
        let n = a.known.commits.len() as int;
        lemma_counted_alike(a.known, k, b.known, j, candidate, start, n);
        if cut_before(a.known, k, candidate, start, n) {
            lemma_cut_alike(a.known, k, b.known, j, candidate, start, n);
        }
        if cut_before(b.known, j, candidate, start, n) {
            lemma_cut_alike(b.known, j, a.known, k, candidate, start, n);
        }
    }
}

} // verus!
