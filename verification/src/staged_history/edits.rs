//! Soft edit counts of staged files. A count that cannot be proved complete is
//! reported as far as it is established, and never blocks a commit.

use vstd::prelude::*;
use vstd::string::*;

use super::changes::{
    seed_at, staged_seed, Change, ChangeView, Seed, SeedView, Version, VersionView,
};
use super::evidence::{
    edge_answer, name_answer, version_answer, Candidate, Known, KnownView,
};
use super::walk::{cut_before, edge_asked, edits_before, name_asked, version_asked, walk, Questions};
use crate::budget::Unit;
use crate::text::{replace_char, replaced, Text};

verus! {

/// Provenance attached to a staged soft finding.
#[derive(Debug)]
pub struct SoftEdit {
    pub path: String,
    pub rule_id: String,
    pub unit: Unit,
    pub count: u64,
    pub limit: u64,
    pub history_complete: bool,
}

impl SoftEdit {
    /// The grace is spent: the whole run is proved and reaches the limit.
    pub open spec fn is_promoted(self) -> bool {
        self.history_complete && self.count >= self.limit
    }

    /// Whether the finding blocks the commit.
    pub fn promoted(&self) -> (r: bool)
        ensures
            r == self.is_promoted(),
    {
        self.history_complete && self.count >= self.limit
    }
}

/// Everything that is known of the staged commit and its history.
#[derive(Debug)]
pub struct Evidence {
    /// The staged changes, where Git could name them.
    pub staged: Option<Vec<Change>>,
    /// Whether the shallow commits could be listed.
    pub shallow_listed: bool,
    /// What a walk goes by; no commits where Git could not walk them.
    pub known: Known,
}

pub struct EvidenceView {
    pub staged: Option<Seq<ChangeView>>,
    pub shallow_listed: bool,
    pub known: KnownView,
}

impl View for Evidence {
    type V = EvidenceView;

    open spec fn view(&self) -> EvidenceView {
        EvidenceView {
            staged: self.staged.deep_view(),
            shallow_listed: self.shallow_listed,
            known: self.known@,
        }
    }
}

/// What the staged commit says of a candidate's file, where it can be known.
pub open spec fn candidate_seed(e: EvidenceView, candidate: Candidate) -> Option<SeedView> {
    match e.staged {
        Some(changes) => if e.shallow_listed {
            seed_at(changes, replaced(candidate.path@, '\\', '/'))
        } else {
            None
        },
        None => None,
    }
}

/// The version from which a candidate's history is walked, if it is.
pub open spec fn walked_from(e: EvidenceView, candidate: Candidate) -> Option<VersionView> {
    match candidate_seed(e, candidate) {
        Some(SeedView::Version(version)) => if e.known.commits.len() > 0 {
            Some(version)
        } else {
            None
        },
        _ => None,
    }
}

/// The edits of a candidate, the staged one among them.
pub open spec fn edit_count(e: EvidenceView, k: int, candidate: Candidate) -> int {
    match walked_from(e, candidate) {
        Some(start) => 1 + edits_before(
            e.known,
            k,
            candidate,
            start,
            e.known.commits.len() as int,
        ),
        None => 1,
    }
}

/// The whole run of a candidate is proved: its file is new, or every line of
/// its history closes.
pub open spec fn is_complete(e: EvidenceView, k: int, candidate: Candidate) -> bool {
    match walked_from(e, candidate) {
        Some(start) => !cut_before(e.known, k, candidate, start, e.known.commits.len() as int),
        None => candidate_seed(e, candidate) == Some(SeedView::Absent),
    }
}

/// The edit record of a candidate.
pub open spec fn is_soft_edit(
    e: EvidenceView,
    k: int,
    candidate: Candidate,
    edit: SoftEdit,
) -> bool {
    &&& edit.path@ == candidate.path@
    &&& edit.rule_id@ == candidate.rule_id@
    &&& edit.unit == candidate.unit
    &&& edit.limit == candidate.edit_limit
    &&& edit.count == edit_count(e, k, candidate)
    &&& edit.history_complete == is_complete(e, k, candidate)
}

/// Some candidate among the first `n` has to know whether a name is governed.
pub open spec fn wants_name(
    e: EvidenceView,
    candidates: Seq<Candidate>,
    n: int,
    name: (int, Text),
) -> bool {
    exists|k: int|
        #![trigger candidates[k]]
        0 <= k < n && (walked_from(e, candidates[k]) matches Some(start) && name_asked(
            e.known,
            k,
            candidates[k],
            start,
            e.known.commits.len() as int,
            name,
        ))
}

/// Some candidate among the first `n` has to have a version measured.
pub open spec fn wants_version(
    e: EvidenceView,
    candidates: Seq<Candidate>,
    n: int,
    version: VersionView,
) -> bool {
    exists|k: int|
        #![trigger candidates[k]]
        0 <= k < n && (walked_from(e, candidates[k]) matches Some(start) && version_asked(
            e.known,
            k,
            candidates[k],
            start,
            e.known.commits.len() as int,
            version,
        ))
}

/// Some candidate among the first `n` has to know the changes of an edge.
pub open spec fn wants_edge(
    e: EvidenceView,
    candidates: Seq<Candidate>,
    n: int,
    edge: (Text, Text),
) -> bool {
    exists|k: int|
        #![trigger candidates[k]]
        0 <= k < n && (walked_from(e, candidates[k]) matches Some(start) && edge_asked(
            e.known,
            k,
            candidates[k],
            start,
            e.known.commits.len() as int,
            edge,
        ))
}

/// The questions are exactly those of the first `n` candidates.
pub open spec fn are_questions(
    e: EvidenceView,
    candidates: Seq<Candidate>,
    n: int,
    questions: Questions,
) -> bool {
    &&& forall|x: (int, Text)| #[trigger]
        questions.names.deep_view().contains(x) <==> wants_name(e, candidates, n, x)
    &&& forall|x: VersionView| #[trigger]
        questions.versions.deep_view().contains(x) <==> wants_version(e, candidates, n, x)
    &&& forall|x: (Text, Text)| #[trigger]
        questions.edges.deep_view().contains(x) <==> wants_edge(e, candidates, n, x)
}

/// None of the questions has an answer in the evidence.
pub open spec fn are_open(e: EvidenceView, questions: Questions) -> bool {
    &&& forall|x: (int, Text)| #[trigger]
        questions.names.deep_view().contains(x) ==> name_answer(e.known.names, x.0, x.1) is Open
    &&& forall|x: VersionView| #[trigger]
        questions.versions.deep_view().contains(x) ==> version_answer(e.known.versions, x) is Open
    &&& forall|x: (Text, Text)| #[trigger]
        questions.edges.deep_view().contains(x) ==> edge_answer(e.known.edges, x.0, x.1) is Open
}

/// No candidate has a question left.
pub open spec fn is_settled(e: EvidenceView, candidates: Seq<Candidate>) -> bool {
    let n = candidates.len() as int;
    &&& forall|x: (int, Text)| !#[trigger] wants_name(e, candidates, n, x)
    &&& forall|x: VersionView| !#[trigger] wants_version(e, candidates, n, x)
    &&& forall|x: (Text, Text)| !#[trigger] wants_edge(e, candidates, n, x)
}

/// How far the derivation has come.
#[derive(Debug)]
pub enum Progress {
    /// These questions have to be answered first.
    Open(Questions),
    /// The record of every candidate, in order.
    Settled(Vec<SoftEdit>),
}

/// The count and the completeness of one candidate.
fn count_edits(
    evidence: &Evidence,
    k: usize,
    candidate: &Candidate,
    questions: &mut Questions,
) -> (r: (u64, bool))
    requires
        evidence.known.commits@.len() < u64::MAX,
    ensures
        r.0 == edit_count(evidence@, k as int, *candidate),
        r.1 == is_complete(evidence@, k as int, *candidate),
        old(questions).is_distinct() ==> final(questions).is_distinct(),
        match walked_from(evidence@, *candidate) {
            Some(start) => {
                let n = evidence@.known.commits.len() as int;
                &&& forall|x: (int, Text)| #[trigger]
                    final(questions).names.deep_view().contains(x) <==> old(
                        questions,
                    ).names.deep_view().contains(x) || name_asked(
                        evidence@.known,
                        k as int,
                        *candidate,
                        start,
                        n,
                        x,
                    )
                &&& forall|x: VersionView| #[trigger]
                    final(questions).versions.deep_view().contains(x) <==> old(
                        questions,
                    ).versions.deep_view().contains(x) || version_asked(
                        evidence@.known,
                        k as int,
                        *candidate,
                        start,
                        n,
                        x,
                    )
                &&& forall|x: (Text, Text)| #[trigger]
                    final(questions).edges.deep_view().contains(x) <==> old(
                        questions,
                    ).edges.deep_view().contains(x) || edge_asked(
                        evidence@.known,
                        k as int,
                        *candidate,
                        start,
                        n,
                        x,
                    )
            },
            None => *final(questions) == *old(questions),
        },
{
    let changes = match &evidence.staged {
        Some(changes) => changes,
        None => {
            return (1, false);
        },
    };
    if !evidence.shallow_listed {
        return (1, false);
    }
    let current = replace_char(candidate.path.as_str(), '\\', '/');
    match staged_seed(changes, current.as_str()) {
        None => (1, false),
        Some(Seed::Absent) => (1, true),
        Some(Seed::Version(start)) => {
            if evidence.known.commits.len() == 0 {
                return (1, false);
            }
            let (edits, cut) = walk(&evidence.known, k, candidate, &start, questions);
            (1 + edits, !cut)
        },
    }
}

/// Derives the edit record of every candidate from the evidence so far, or
/// says what has to be known first.
pub fn derive(candidates: &Vec<Candidate>, evidence: &Evidence) -> (r: Progress)
    requires
        evidence.known.commits@.len() < u64::MAX,
    ensures
        r is Settled <==> is_settled(evidence@, candidates@),
        match r {
            Progress::Open(questions) => {
                &&& are_questions(evidence@, candidates@, candidates@.len() as int, questions)
                &&& are_open(evidence@, questions)
                &&& questions.is_distinct()
            },
            Progress::Settled(edits) => {
                &&& edits@.len() == candidates@.len()
                &&& forall|k: int|
                    #![trigger edits@[k]]
                    0 <= k < edits@.len() ==> is_soft_edit(
                        evidence@,
                        k,
                        candidates@[k],
                        edits@[k],
                    )
            },
        },
{
    let ghost e = evidence@;
    let ghost all = candidates@;
    let mut questions = Questions { names: Vec::new(), versions: Vec::new(), edges: Vec::new() };
    let mut edits: Vec<SoftEdit> = Vec::new();
    let mut k: usize = 0;
    while k < candidates.len()
        invariant
            evidence.known.commits@.len() < u64::MAX,
            e == evidence@,
            all == candidates@,
            k <= all.len(),
            are_questions(e, all, k as int, questions),
            questions.is_distinct(),
            edits@.len() == k,
            forall|j: int|
                #![trigger edits@[j]]
                0 <= j < k ==> is_soft_edit(e, j, all[j], edits@[j]),
        decreases all.len() - k,
    {
        let ghost here = questions;
        let candidate = &candidates[k];
        let (count, complete) = count_edits(evidence, k, candidate, &mut questions);
        proof {
            assert forall|x: (int, Text)| #[trigger]
                questions.names.deep_view().contains(x) <==> wants_name(e, all, k + 1, x) by {
                assert(here.names.deep_view().contains(x) <==> wants_name(e, all, k as int, x));
                lemma_wants_name_next(e, all, k as int, x);
            }
            assert forall|x: VersionView| #[trigger]
                questions.versions.deep_view().contains(x) <==> wants_version(e, all, k + 1, x) by {
                assert(here.versions.deep_view().contains(x) <==> wants_version(
                    e,
                    all,
                    k as int,
                    x,
                ));
                lemma_wants_version_next(e, all, k as int, x);
            }
            assert forall|x: (Text, Text)| #[trigger]
                questions.edges.deep_view().contains(x) <==> wants_edge(e, all, k + 1, x) by {
                assert(here.edges.deep_view().contains(x) <==> wants_edge(e, all, k as int, x));
                lemma_wants_edge_next(e, all, k as int, x);
            }
        }
        let ghost before = edits@;
        edits.push(
            SoftEdit {
                path: candidate.path.clone(),
                rule_id: candidate.rule_id.clone(),
                unit: candidate.unit,
                count,
                limit: candidate.edit_limit,
                history_complete: complete,
            },
        );
        assert forall|j: int| #![trigger edits@[j]] 0 <= j < k + 1 implies is_soft_edit(
            e,
            j,
            all[j],
            edits@[j],
        ) by {
            if j < k {
                assert(edits@[j] == before[j]);
            }
        }
        k += 1;
    }
    if questions.names.len() > 0 || questions.versions.len() > 0 || questions.edges.len() > 0 {
        proof {
            let n = all.len() as int;
            if questions.names@.len() > 0 {
                let x = questions.names.deep_view()[0];
                assert(questions.names.deep_view().contains(x));
                assert(wants_name(e, all, n, x));
            } else if questions.versions@.len() > 0 {
                let x = questions.versions.deep_view()[0];
                assert(questions.versions.deep_view().contains(x));
                assert(wants_version(e, all, n, x));
            } else {
                let x = questions.edges.deep_view()[0];
                assert(questions.edges.deep_view().contains(x));
                assert(wants_edge(e, all, n, x));
            }
        }
        Progress::Open(questions)
    } else {
        proof {
            assert forall|x: (int, Text)| !#[trigger] wants_name(e, all, all.len() as int, x) by {
                assert(!questions.names.deep_view().contains(x));
            }
            assert forall|x: VersionView| !#[trigger] wants_version(
                e,
                all,
                all.len() as int,
                x,
            ) by {
                assert(!questions.versions.deep_view().contains(x));
            }
            assert forall|x: (Text, Text)| !#[trigger] wants_edge(e, all, all.len() as int, x) by {
                assert(!questions.edges.deep_view().contains(x));
            }
        }
        Progress::Settled(edits)
    }
}

proof fn lemma_wants_name_next(
    e: EvidenceView,
    candidates: Seq<Candidate>,
    k: int,
    x: (int, Text),
)
    requires
        0 <= k < candidates.len(),
    ensures
        wants_name(e, candidates, k + 1, x) <==> wants_name(e, candidates, k, x) || (walked_from(
            e,
            candidates[k],
        ) matches Some(start) && name_asked(
            e.known,
            k,
            candidates[k],
            start,
            e.known.commits.len() as int,
            x,
        )),
{
}

proof fn lemma_wants_version_next(
    e: EvidenceView,
    candidates: Seq<Candidate>,
    k: int,
    x: VersionView,
)
    requires
        0 <= k < candidates.len(),
    ensures
        wants_version(e, candidates, k + 1, x) <==> wants_version(e, candidates, k, x) || (
        walked_from(e, candidates[k]) matches Some(start) && version_asked(
            e.known,
            k,
            candidates[k],
            start,
            e.known.commits.len() as int,
            x,
        )),
{
}

proof fn lemma_wants_edge_next(
    e: EvidenceView,
    candidates: Seq<Candidate>,
    k: int,
    x: (Text, Text),
)
    requires
        0 <= k < candidates.len(),
    ensures
        wants_edge(e, candidates, k + 1, x) <==> wants_edge(e, candidates, k, x) || (walked_from(
            e,
            candidates[k],
        ) matches Some(start) && edge_asked(
            e.known,
            k,
            candidates[k],
            start,
            e.known.commits.len() as int,
            x,
        )),
{
}

} // verus!
