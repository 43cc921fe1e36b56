//! The walk from `HEAD` back through every parent. It follows a file through
//! the versions that stayed over the soft limit, and closes each line at the
//! most recent reset or absence.

use vstd::prelude::*;

use super::changes::{Change, ChangeView, Commit, CommitView, Status, Version, VersionView};
use super::evidence::{
    edge_answer, measured_value, name_answer, value_of, version_answer, Answer, Candidate, Known,
    KnownView,
};
use crate::text::{holds_text, lemma_push_is_insert, same, Text};

verus! {

/// How a version that a walk reaches stands.
#[derive(Clone, Copy, Debug, PartialEq, Eq, Structural)]
pub enum Standing {
    /// Nothing can be proved from it.
    Cut,
    /// It ends the run: it is at or below the soft limit, or not governed.
    Closed,
    /// It stayed over the soft limit.
    Over,
    /// It is not known yet whether its name is governed.
    NameOpen,
    /// It is not measured yet.
    VersionOpen,
}

/// How the version at commit `i` stands for the candidate `k`. A commit whose
/// parents are cut off proves nothing; a name that the rule does not govern is
/// not measured.
pub open spec fn standing(
    known: KnownView,
    k: int,
    candidate: Candidate,
    i: int,
    version: VersionView,
) -> Standing {
    if known.shallow.contains(known.commits[i].sha) {
        Standing::Cut
    } else {
        match name_answer(known.names, k, version.path) {
            Answer::Open => Standing::NameOpen,
            Answer::Unavailable => Standing::Cut,
            Answer::Given(false) => Standing::Closed,
            Answer::Given(true) => match version_answer(known.versions, version) {
                Answer::Open => Standing::VersionOpen,
                Answer::Unavailable => Standing::Cut,
                Answer::Given(measurement) => match value_of(candidate, measurement) {
                    None => Standing::Cut,
                    Some(value) => if value <= candidate.soft_limit {
                        Standing::Closed
                    } else {
                        Standing::Over
                    },
                },
            },
        }
    }
}

/// The change that made the file at `path`: the first that arrives there.
pub open spec fn change_at(changes: Seq<ChangeView>, path: Text) -> Option<ChangeView>
    decreases changes.len(),
{
    if changes.len() == 0 {
        None
    } else if changes[0].new_path == path && changes[0].status != Status::Deleted {
        Some(changes[0])
    } else {
        change_at(changes.drop_first(), path)
    }
}

/// The place of the commit, from `from` on.
pub open spec fn place_from(commits: Seq<CommitView>, from: int, sha: Text) -> Option<int>
    decreases commits.len() - from,
{
    if from < 0 || from >= commits.len() {
        None
    } else if commits[from].sha == sha {
        Some(from)
    } else {
        place_from(commits, from + 1, sha)
    }
}

/// What was before a version, seen through one parent.
pub enum Before {
    /// The changes from the parent are not known yet.
    Open,
    /// They cannot be known.
    Cut,
    /// The file was not there.
    Absent,
    /// The same version stood at the parent.
    Same { place: int },
    /// Another version stood at the parent.
    Other { place: int, version: VersionView },
}

/// What was before the version at commit `i`, seen through its parent `p`. A
/// rename carries the file's identity; a copy does not.
pub open spec fn before(known: KnownView, i: int, version: VersionView, p: int) -> Before {
    let child = known.commits[i];
    match edge_answer(known.edges, child.sha, child.parents[p]) {
        Answer::Open => Before::Open,
        Answer::Unavailable => Before::Cut,
        Answer::Given(changes) => match (
            change_at(changes, version.path),
            place_from(known.commits, i + 1, child.parents[p]),
        ) {
            (Some(change), found) => if change.status == Status::Added || change.status
                == Status::Copied {
                Before::Absent
            } else {
                match found {
                    Some(place) => Before::Other {
                        place,
                        version: VersionView { path: change.old_path, blob: change.old_blob },
                    },
                    None => Before::Cut,
                }
            },
            (None, Some(place)) => Before::Same { place },
            (None, None) => Before::Cut,
        },
    }
}

/// Where the walk goes on, and with what version.
pub open spec fn goes_on(b: Before, version: VersionView) -> Option<(int, VersionView)> {
    match b {
        Before::Same { place } => Some((place, version)),
        Before::Other { place, version } => Some((place, version)),
        _ => None,
    }
}

/// The walk steps from the version at commit `i`, through its parent `p`, to
/// the version `next` at commit `j`.
pub open spec fn steps(
    known: KnownView,
    k: int,
    candidate: Candidate,
    i: int,
    version: VersionView,
    p: int,
    j: int,
    next: VersionView,
) -> bool {
    &&& 0 <= i < known.commits.len()
    &&& 0 <= p < known.commits[i].parents.len()
    &&& standing(known, k, candidate, i, version) == Standing::Over
    &&& goes_on(before(known, i, version, p), version) == Some((j, next))
}

/// The walk from `start` at `HEAD` reaches the version at commit `j`: every
/// version on the way stayed over the soft limit.
pub open spec fn reaches(
    known: KnownView,
    k: int,
    candidate: Candidate,
    start: VersionView,
    j: int,
    version: VersionView,
) -> bool
    decreases j,
{
    if j <= 0 {
        j == 0 && version == start
    } else {
        exists|i: int, earlier: VersionView, p: int|
            {
                &&& #[trigger] steps(known, k, candidate, i, earlier, p, j, version)
                &&& 0 <= i < j
                &&& reaches(known, k, candidate, start, i, earlier)
            }
    }
}

/// The commit made the version: it is distinct from that of every parent.
pub open spec fn is_edit(known: KnownView, i: int, version: VersionView) -> bool {
    forall|p: int|
        #![trigger known.commits[i].parents[p]]
        0 <= p < known.commits[i].parents.len() ==> before(known, i, version, p) is Absent
            || before(known, i, version, p) is Other
}

/// The commit edited the file while it stayed over the soft limit.
pub open spec fn edits_at(
    known: KnownView,
    k: int,
    candidate: Candidate,
    start: VersionView,
    i: int,
) -> bool {
    exists|version: VersionView| #[trigger]
        reaches(known, k, candidate, start, i, version) && standing(
            known,
            k,
            candidate,
            i,
            version,
        ) == Standing::Over && is_edit(known, i, version)
}

/// The number of the first `n` commits that edited the file while it stayed
/// over the soft limit.
pub open spec fn edits_before(
    known: KnownView,
    k: int,
    candidate: Candidate,
    start: VersionView,
    n: int,
) -> int
    decreases n,
{
    if n <= 0 {
        0
    } else {
        edits_before(known, k, candidate, start, n - 1) + if edits_at(
            known,
            k,
            candidate,
            start,
            n - 1,
        ) {
            1int
        } else {
            0
        }
    }
}

/// Some parent of the commit gives this.
pub open spec fn some_cut(known: KnownView, i: int, version: VersionView) -> bool {
    exists|p: int|
        #![trigger known.commits[i].parents[p]]
        0 <= p < known.commits[i].parents.len() && before(known, i, version, p) is Cut
}

/// Nothing can be proved beyond the version at commit `i`.
pub open spec fn is_cut(
    known: KnownView,
    k: int,
    candidate: Candidate,
    i: int,
    version: VersionView,
) -> bool {
    match standing(known, k, candidate, i, version) {
        Standing::Cut => true,
        Standing::Over => some_cut(known, i, version),
        _ => false,
    }
}

/// Some line of the walk is cut among the first `n` commits.
pub open spec fn cut_before(
    known: KnownView,
    k: int,
    candidate: Candidate,
    start: VersionView,
    n: int,
) -> bool {
    exists|i: int, version: VersionView|
        0 <= i < n && #[trigger] reaches(known, k, candidate, start, i, version) && is_cut(
            known,
            k,
            candidate,
            i,
            version,
        )
}

// ---------------------------------------------------------------------------
// Questions
// ---------------------------------------------------------------------------

/// A question whether a candidate's rule governs a name.
#[derive(Debug)]
pub struct Name {
    pub candidate: usize,
    pub path: String,
}

/// A question for the changes from a parent to its child.
#[derive(Debug)]
pub struct Edge {
    pub child: String,
    pub parent: String,
}

impl View for Name {
    type V = (int, Text);

    open spec fn view(&self) -> (int, Text) {
        (self.candidate as int, self.path@)
    }
}

impl DeepView for Name {
    type V = (int, Text);

    open spec fn deep_view(&self) -> (int, Text) {
        self@
    }
}

impl View for Edge {
    type V = (Text, Text);

    open spec fn view(&self) -> (Text, Text) {
        (self.child@, self.parent@)
    }
}

impl DeepView for Edge {
    type V = (Text, Text);

    open spec fn deep_view(&self) -> (Text, Text) {
        self@
    }
}

/// The questions that a walk has to have answered before it can go on.
#[derive(Debug)]
pub struct Questions {
    pub names: Vec<Name>,
    pub versions: Vec<Version>,
    pub edges: Vec<Edge>,
}

impl Questions {
    /// No question is put twice.
    pub open spec fn is_distinct(self) -> bool {
        &&& self.names.deep_view().no_duplicates()
        &&& self.versions.deep_view().no_duplicates()
        &&& self.edges.deep_view().no_duplicates()
    }
}

/// The version at commit `i` raises the question of its name.
pub open spec fn asks_name(
    known: KnownView,
    k: int,
    candidate: Candidate,
    i: int,
    version: VersionView,
    name: (int, Text),
) -> bool {
    standing(known, k, candidate, i, version) == Standing::NameOpen && name == (k, version.path)
}

/// The version at commit `i` has to be measured.
pub open spec fn asks_version(
    known: KnownView,
    k: int,
    candidate: Candidate,
    i: int,
    version: VersionView,
    asked: VersionView,
) -> bool {
    standing(known, k, candidate, i, version) == Standing::VersionOpen && asked == version
}

/// The version at commit `i` raises the question of the changes from a parent.
pub open spec fn asks_edge(
    known: KnownView,
    k: int,
    candidate: Candidate,
    i: int,
    version: VersionView,
    edge: (Text, Text),
) -> bool {
    &&& standing(known, k, candidate, i, version) == Standing::Over
    &&& edge.0 == known.commits[i].sha
    &&& exists|p: int|
        #![trigger known.commits[i].parents[p]]
        0 <= p < known.commits[i].parents.len() && known.commits[i].parents[p] == edge.1
            && before(known, i, version, p) is Open
}

// ---------------------------------------------------------------------------
// One version
// ---------------------------------------------------------------------------

fn stand(known: &Known, k: usize, candidate: &Candidate, i: usize, version: &Version) -> (r:
    Standing)
    requires
        i < known.commits@.len(),
    ensures
        r == standing(known@, k as int, *candidate, i as int, version@),
{
    assert(known@.commits[i as int] == known.commits@[i as int]@);
    if holds_text(&known.shallow, &known.commits[i].sha) {
        return Standing::Cut;
    }
    match known.name(k, version.path.as_str()) {
        Answer::Open => Standing::NameOpen,
        Answer::Unavailable => Standing::Cut,
        Answer::Given(governed) => {
            if !governed {
                return Standing::Closed;
            }
            match known.version(version) {
                Answer::Open => Standing::VersionOpen,
                Answer::Unavailable => Standing::Cut,
                Answer::Given(measurement) => match measured_value(candidate, &measurement) {
                    None => Standing::Cut,
                    Some(value) => {
                        if value <= candidate.soft_limit {
                            Standing::Closed
                        } else {
                            Standing::Over
                        }
                    },
                },
            }
        },
    }
}

fn find_change(changes: &Vec<Change>, path: &str) -> (r: Option<usize>)
    ensures
        match r {
            Some(c) => c < changes@.len() && change_at(changes.deep_view(), path@) == Some(
                changes@[c as int]@,
            ),
            None => change_at(changes.deep_view(), path@) is None,
        },
{
    let ghost all = changes.deep_view();
    let mut i: usize = 0;
    assert(all.skip(0) =~= all);
    while i < changes.len()
        invariant
            i <= changes@.len(),
            all == changes.deep_view(),
            change_at(all, path@) == change_at(all.skip(i as int), path@),
        decreases changes@.len() - i,
    {
        assert(all.skip(i as int)[0] == changes@[i as int]@);
        assert(all.skip(i as int).drop_first() =~= all.skip(i + 1));
        if same(changes[i].new_path.as_str(), path) && changes[i].status != Status::Deleted {
            return Some(i);
        }
        i += 1;
    }
    None
}

fn find_place_from(commits: &Vec<Commit>, from: usize, sha: &str) -> (r: Option<usize>)
    ensures
        match r {
            Some(place) => from <= place < commits@.len() && place_from(
                commits.deep_view(),
                from as int,
                sha@,
            ) == Some(place as int),
            None => place_from(commits.deep_view(), from as int, sha@) is None,
        },
{
    let ghost all = commits.deep_view();
    let mut i: usize = from;
    while i < commits.len()
        invariant
            from <= i,
            all == commits.deep_view(),
            place_from(all, from as int, sha@) == place_from(all, i as int, sha@),
        decreases commits@.len() - i,
    {
        assert(all[i as int] == commits@[i as int]@);
        if same(commits[i].sha.as_str(), sha) {
            return Some(i);
        }
        i += 1;
    }
    None
}

/// What was before a version, seen through one parent.
enum Earlier {
    Open,
    Cut,
    Absent,
    Same { place: usize },
    Other { place: usize, version: Version },
}

impl Earlier {
    spec fn view(&self) -> Before {
        match self {
            Earlier::Open => Before::Open,
            Earlier::Cut => Before::Cut,
            Earlier::Absent => Before::Absent,
            Earlier::Same { place } => Before::Same { place: *place as int },
            Earlier::Other { place, version } => Before::Other {
                place: *place as int,
                version: version@,
            },
        }
    }
}

fn look(known: &Known, i: usize, version: &Version, p: usize) -> (r: Earlier)
    requires
        i < known.commits@.len(),
        p < known.commits@[i as int].parents@.len(),
    ensures
        r@ == before(known@, i as int, version@, p as int),
        match r {
            Earlier::Same { place } => i < place < known.commits@.len(),
            Earlier::Other { place, .. } => i < place < known.commits@.len(),
            _ => true,
        },
{
    let child = &known.commits[i];
    assert(known@.commits[i as int] == child@);
    assert(child@.parents[p as int] == child.parents@[p as int]@);
    let n: usize = known.commits.len();
    match known.edge_at(child.sha.as_str(), child.parents[p].as_str()) {
        None => Earlier::Open,
        Some(e) => match &known.edges[e].changes {
            None => Earlier::Cut,
            Some(changes) => {
                let found = find_place_from(&known.commits, i + 1, child.parents[p].as_str());
                match find_change(changes, version.path.as_str()) {
                    Some(c) => {
                        let change = &changes[c];
                        if change.status == Status::Added || change.status == Status::Copied {
                            return Earlier::Absent;
                        }
                        match found {
                            Some(place) => Earlier::Other {
                                place,
                                version: Version {
                                    path: change.old_path.clone(),
                                    blob: change.old_blob.clone(),
                                },
                            },
                            None => Earlier::Cut,
                        }
                    },
                    None => match found {
                        Some(place) => Earlier::Same { place },
                        None => Earlier::Cut,
                    },
                }
            },
        },
    }
}

// ---------------------------------------------------------------------------
// Lists as sets
// ---------------------------------------------------------------------------

fn add_version(list: &mut Vec<Version>, version: Version)
    ensures
        forall|x: VersionView| #[trigger]
            final(list).deep_view().contains(x) <==> old(list).deep_view().contains(x) || x
                == version@,
        old(list).deep_view().no_duplicates() ==> final(list).deep_view().no_duplicates(),
{
    let ghost here = list.deep_view();
    let mut i: usize = 0;
    while i < list.len()
        invariant
            i <= list@.len(),
            here == list.deep_view(),
            here == old(list).deep_view(),
            forall|j: int| #![trigger here[j]] 0 <= j < i ==> here[j] != version@,
        decreases list@.len() - i,
    {
        if list[i].equals(&version) {
            assert(here[i as int] == version@);
            assert(here.contains(version@));
            return;
        }
        assert(here[i as int] == list@[i as int]@);
        i += 1;
    }
    let ghost shown = version@;
    list.push(version);
    proof {
        lemma_push_is_insert(here, shown);
        assert(list.deep_view() =~= here.push(shown));
    }
}

fn add_name(list: &mut Vec<Name>, candidate: usize, path: &str)
    ensures
        forall|x: (int, Text)| #[trigger]
            final(list).deep_view().contains(x) <==> old(list).deep_view().contains(x) || x == (
                candidate as int,
                path@,
            ),
        old(list).deep_view().no_duplicates() ==> final(list).deep_view().no_duplicates(),
{
    let ghost here = list.deep_view();
    let ghost shown = (candidate as int, path@);
    let mut i: usize = 0;
    while i < list.len()
        invariant
            i <= list@.len(),
            here == list.deep_view(),
            here == old(list).deep_view(),
            forall|j: int| #![trigger here[j]] 0 <= j < i ==> here[j] != shown,
            shown == (candidate as int, path@),
        decreases list@.len() - i,
    {
        if list[i].candidate == candidate && same(list[i].path.as_str(), path) {
            assert(here[i as int] == shown);
            assert(here.contains(shown));
            return;
        }
        assert(here[i as int] == list@[i as int]@);
        i += 1;
    }
    list.push(Name { candidate, path: path.to_owned() });
    proof {
        lemma_push_is_insert(here, shown);
        assert(list.deep_view() =~= here.push(shown));
    }
}

fn add_edge(list: &mut Vec<Edge>, child: &str, parent: &str)
    ensures
        forall|x: (Text, Text)| #[trigger]
            final(list).deep_view().contains(x) <==> old(list).deep_view().contains(x) || x == (
                child@,
                parent@,
            ),
        old(list).deep_view().no_duplicates() ==> final(list).deep_view().no_duplicates(),
{
    let ghost here = list.deep_view();
    let ghost shown = (child@, parent@);
    let mut i: usize = 0;
    while i < list.len()
        invariant
            i <= list@.len(),
            here == list.deep_view(),
            here == old(list).deep_view(),
            forall|j: int| #![trigger here[j]] 0 <= j < i ==> here[j] != shown,
            shown == (child@, parent@),
        decreases list@.len() - i,
    {
        if same(list[i].child.as_str(), child) && same(list[i].parent.as_str(), parent) {
            assert(here[i as int] == shown);
            assert(here.contains(shown));
            return;
        }
        assert(here[i as int] == list@[i as int]@);
        i += 1;
    }
    list.push(Edge { child: child.to_owned(), parent: parent.to_owned() });
    proof {
        lemma_push_is_insert(here, shown);
        assert(list.deep_view() =~= here.push(shown));
    }
}

fn add_to_layer(layers: &mut Vec<Vec<Version>>, place: usize, version: Version)
    requires
        place < old(layers)@.len(),
    ensures
        final(layers)@.len() == old(layers)@.len(),
        forall|j: int, x: VersionView|
            0 <= j < old(layers)@.len() ==> (#[trigger] final(layers)@[j].deep_view().contains(x)
                <==> old(layers)@[j].deep_view().contains(x) || (j == place && x == version@)),
{
    let ghost here = layers@;
    let mut layer: Vec<Version> = Vec::new();
    core::mem::swap(&mut layer, &mut layers[place]);
    assert(layer@ == here[place as int]@);
    add_version(&mut layer, version);
    layers.set(place, layer);
    assert forall|j: int, x: VersionView| 0 <= j < here.len() implies (
    #[trigger] layers@[j].deep_view().contains(x) <==> here[j].deep_view().contains(x) || (j
        == place && x == version@)) by {
        if j != place {
            assert(layers@[j] == here[j]);
        }
    }
}

// ---------------------------------------------------------------------------
// The walk
// ---------------------------------------------------------------------------

/// The parents before `p` lead to the version at commit `j`.
spec fn led_to(
    known: KnownView,
    i: int,
    version: VersionView,
    p: int,
    j: int,
    next: VersionView,
) -> bool {
    exists|q: int|
        #![trigger known.commits[i].parents[q]]
        0 <= q < p && goes_on(before(known, i, version, q), version) == Some((j, next))
}

/// The parents before `p` leave the question of an edge open.
spec fn left_open(
    known: KnownView,
    i: int,
    version: VersionView,
    p: int,
    edge: (Text, Text),
) -> bool {
    edge.0 == known.commits[i].sha && exists|q: int|
        #![trigger known.commits[i].parents[q]]
        0 <= q < p && known.commits[i].parents[q] == edge.1 && before(known, i, version, q) is Open
}

/// Follows a version to the parents of its commit. Answers whether the commit
/// made the version, and whether the walk is cut.
fn follow(
    known: &Known,
    i: usize,
    version: &Version,
    layers: &mut Vec<Vec<Version>>,
    edges: &mut Vec<Edge>,
) -> (r: (bool, bool))
    requires
        i < known.commits@.len(),
        old(layers)@.len() == known.commits@.len(),
    ensures
        final(layers)@.len() == old(layers)@.len(),
        r.0 == is_edit(known@, i as int, version@),
        r.1 == some_cut(known@, i as int, version@),
        old(edges).deep_view().no_duplicates() ==> final(edges).deep_view().no_duplicates(),
        forall|j: int, x: VersionView|
            0 <= j < old(layers)@.len() ==> (#[trigger] final(layers)@[j].deep_view().contains(x)
                <==> old(layers)@[j].deep_view().contains(x) || led_to(
                known@,
                i as int,
                version@,
                known@.commits[i as int].parents.len() as int,
                j,
                x,
            )),
        forall|x: (Text, Text)| #[trigger]
            final(edges).deep_view().contains(x) <==> old(edges).deep_view().contains(x)
                || left_open(
                known@,
                i as int,
                version@,
                known@.commits[i as int].parents.len() as int,
                x,
            ),
{
    let ghost first_layers = layers@;
    let ghost first_edges = edges.deep_view();
    let ghost all = known@;
    let ghost parents = all.commits[i as int].parents;
    assert(all.commits[i as int] == known.commits@[i as int]@);
    let mut edit: bool = true;
    let mut cut: bool = false;
    let mut p: usize = 0;
    while p < known.commits[i].parents.len()
        invariant
            i < known.commits@.len(),
            all == known@,
            all.commits[i as int] == known.commits@[i as int]@,
            parents == all.commits[i as int].parents,
            parents.len() == known.commits@[i as int].parents@.len(),
            p <= parents.len(),
            first_layers.len() == known.commits@.len(),
            layers@.len() == first_layers.len(),
            first_edges.no_duplicates() ==> edges.deep_view().no_duplicates(),
            edit == forall|q: int|
                #![trigger all.commits[i as int].parents[q]]
                0 <= q < p ==> before(all, i as int, version@, q) is Absent || before(
                    all,
                    i as int,
                    version@,
                    q,
                ) is Other,
            cut == exists|q: int|
                #![trigger all.commits[i as int].parents[q]]
                0 <= q < p && before(all, i as int, version@, q) is Cut,
            forall|j: int, x: VersionView|
                0 <= j < first_layers.len() ==> (#[trigger] layers@[j].deep_view().contains(x)
                    <==> first_layers[j].deep_view().contains(x) || led_to(
                    all,
                    i as int,
                    version@,
                    p as int,
                    j,
                    x,
                )),
            forall|x: (Text, Text)| #[trigger]
                edges.deep_view().contains(x) <==> first_edges.contains(x) || left_open(
                    all,
                    i as int,
                    version@,
                    p as int,
                    x,
                ),
        decreases parents.len() - p,
    {
        let ghost here_layers = layers@;
        let ghost here_edges = edges.deep_view();
        let ghost was_edit = edit;
        let ghost was_cut = cut;
        let ghost b = before(all, i as int, version@, p as int);
        let ghost parent = all.commits[i as int].parents[p as int];
        assert(parent == known.commits@[i as int].parents@[p as int]@);
        match look(known, i, version, p) {
            Earlier::Open => {
                edit = false;
                add_edge(
                    edges,
                    known.commits[i].sha.as_str(),
                    known.commits[i].parents[p].as_str(),
                );
            },
            Earlier::Cut => {
                edit = false;
                cut = true;
            },
            Earlier::Absent => {},
            Earlier::Same { place } => {
                edit = false;
                add_to_layer(layers, place, version.clone());
            },
            Earlier::Other { place, version } => {
                add_to_layer(layers, place, version);
            },
        }
        proof {
            assert forall|j: int, x: VersionView| 0 <= j < first_layers.len() implies (
            #[trigger] layers@[j].deep_view().contains(x) <==> first_layers[j].deep_view().contains(
                x,
            ) || led_to(all, i as int, version@, p + 1, j, x)) by {
                lemma_led_to_next(all, i as int, version@, p as int, j, x);
                assert(here_layers[j].deep_view().contains(x) <==> first_layers[j].deep_view().contains(
                    x,
                ) || led_to(all, i as int, version@, p as int, j, x));
            }
            assert forall|x: (Text, Text)| #[trigger]
                edges.deep_view().contains(x) <==> first_edges.contains(x) || left_open(
                    all,
                    i as int,
                    version@,
                    p + 1,
                    x,
                ) by {
                lemma_left_open_next(all, i as int, version@, p as int, x);
                assert(here_edges.contains(x) <==> first_edges.contains(x) || left_open(
                    all,
                    i as int,
                    version@,
                    p as int,
                    x,
                ));
            }
        }
        p += 1;
    }
    (edit, cut)
}

proof fn lemma_led_to_next(
    known: KnownView,
    i: int,
    version: VersionView,
    p: int,
    j: int,
    next: VersionView,
)
    requires
        0 <= p,
    ensures
        led_to(known, i, version, p + 1, j, next) <==> led_to(known, i, version, p, j, next)
            || goes_on(before(known, i, version, p), version) == Some((j, next)),
{
    if goes_on(before(known, i, version, p), version) == Some((j, next)) {
        assert(known.commits[i].parents[p] == known.commits[i].parents[p]);
    }
}

proof fn lemma_left_open_next(
    known: KnownView,
    i: int,
    version: VersionView,
    p: int,
    edge: (Text, Text),
)
    requires
        0 <= p,
    ensures
        left_open(known, i, version, p + 1, edge) <==> left_open(known, i, version, p, edge) || (
        edge == (known.commits[i].sha, known.commits[i].parents[p]) && before(
            known,
            i,
            version,
            p,
        ) is Open),
{
    if edge == (known.commits[i].sha, known.commits[i].parents[p]) && before(
        known,
        i,
        version,
        p,
    ) is Open {
        assert(known.commits[i].parents[p] == edge.1);
    }
}

/// Some parent of commit `i` leads from the version to the one at commit `j`.
spec fn leads(
    known: KnownView,
    k: int,
    candidate: Candidate,
    i: int,
    version: VersionView,
    j: int,
    next: VersionView,
) -> bool {
    exists|p: int| #[trigger] steps(known, k, candidate, i, version, p, j, next)
}

/// Looks at one version that the walk reaches. Answers whether its commit is an
/// edit over the soft limit, and whether the walk is cut.
fn visit(
    known: &Known,
    k: usize,
    candidate: &Candidate,
    i: usize,
    version: &Version,
    layers: &mut Vec<Vec<Version>>,
    questions: &mut Questions,
) -> (r: (bool, bool))
    requires
        i < known.commits@.len(),
        old(layers)@.len() == known.commits@.len(),
    ensures
        final(layers)@.len() == old(layers)@.len(),
        r.0 == (standing(known@, k as int, *candidate, i as int, version@) == Standing::Over
            && is_edit(known@, i as int, version@)),
        r.1 == is_cut(known@, k as int, *candidate, i as int, version@),
        old(questions).is_distinct() ==> final(questions).is_distinct(),
        forall|j: int, x: VersionView|
            0 <= j < old(layers)@.len() ==> (#[trigger] final(layers)@[j].deep_view().contains(x)
                <==> old(layers)@[j].deep_view().contains(x) || leads(
                known@,
                k as int,
                *candidate,
                i as int,
                version@,
                j,
                x,
            )),
        forall|x: (int, Text)| #[trigger]
            final(questions).names.deep_view().contains(x) <==> old(
                questions,
            ).names.deep_view().contains(x) || asks_name(
                known@,
                k as int,
                *candidate,
                i as int,
                version@,
                x,
            ),
        forall|x: VersionView| #[trigger]
            final(questions).versions.deep_view().contains(x) <==> old(
                questions,
            ).versions.deep_view().contains(x) || asks_version(
                known@,
                k as int,
                *candidate,
                i as int,
                version@,
                x,
            ),
        forall|x: (Text, Text)| #[trigger]
            final(questions).edges.deep_view().contains(x) <==> old(
                questions,
            ).edges.deep_view().contains(x) || asks_edge(
                known@,
                k as int,
                *candidate,
                i as int,
                version@,
                x,
            ),
{
    let ghost all = known@;
    let ghost here = layers@;
    match stand(known, k, candidate, i, version) {
        Standing::Cut => (false, true),
        Standing::Closed => (false, false),
        Standing::NameOpen => {
            add_name(&mut questions.names, k, version.path.as_str());
            (false, false)
        },
        Standing::VersionOpen => {
            add_version(&mut questions.versions, version.clone());
            (false, false)
        },
        Standing::Over => {
            let r = follow(known, i, version, layers, &mut questions.edges);
            proof {
                let n = all.commits[i as int].parents.len() as int;
                assert forall|j: int, x: VersionView| 0 <= j < here.len() implies (
                #[trigger] layers@[j].deep_view().contains(x) <==> here[j].deep_view().contains(x)
                    || leads(all, k as int, *candidate, i as int, version@, j, x)) by {
                    if led_to(all, i as int, version@, n, j, x) {
                        let q = choose|q: int|
                            #![trigger all.commits[i as int].parents[q]]
                            0 <= q < n && goes_on(before(all, i as int, version@, q), version@)
                                == Some((j, x));
                        assert(steps(all, k as int, *candidate, i as int, version@, q, j, x));
                    }
                    if leads(all, k as int, *candidate, i as int, version@, j, x) {
                        let q = choose|q: int| #[trigger]
                            steps(all, k as int, *candidate, i as int, version@, q, j, x);
                        assert(all.commits[i as int].parents[q]
                            == all.commits[i as int].parents[q]);
                        assert(led_to(all, i as int, version@, n, j, x));
                    }
                }
            }
            r
        },
    }
}

/// The version at commit `j` was reached from a commit before `i`.
spec fn came(
    known: KnownView,
    k: int,
    candidate: Candidate,
    start: VersionView,
    i: int,
    j: int,
    version: VersionView,
) -> bool {
    ||| j == 0 && version == start
    ||| exists|h: int, earlier: VersionView|
        0 <= h < i && #[trigger] reaches(known, k, candidate, start, h, earlier) && leads(
            known,
            k,
            candidate,
            h,
            earlier,
            j,
            version,
        )
}

/// Once every earlier commit was looked at, what came is what is reached.
proof fn lemma_came(
    known: KnownView,
    k: int,
    candidate: Candidate,
    start: VersionView,
    j: int,
    version: VersionView,
)
    requires
        0 <= j,
    ensures
        came(known, k, candidate, start, j, j, version) <==> reaches(
            known,
            k,
            candidate,
            start,
            j,
            version,
        ),
{
    if reaches(known, k, candidate, start, j, version) && j > 0 {
        let (h, earlier, p) = choose|h: int, earlier: VersionView, p: int|
            {
                &&& #[trigger] steps(known, k, candidate, h, earlier, p, j, version)
                &&& 0 <= h < j
                &&& reaches(known, k, candidate, start, h, earlier)
            };
        assert(leads(known, k, candidate, h, earlier, j, version));
    }
    if came(known, k, candidate, start, j, j, version) && !(j == 0 && version == start) {
        let (h, earlier) = choose|h: int, earlier: VersionView|
            0 <= h < j && #[trigger] reaches(known, k, candidate, start, h, earlier) && leads(
                known,
                k,
                candidate,
                h,
                earlier,
                j,
                version,
            );
        let p = choose|p: int| #[trigger] steps(known, k, candidate, h, earlier, p, j, version);
        assert(steps(known, k, candidate, h, earlier, p, j, version));
    }
}

/// The questions that the versions of the first `i` commits raise.
pub open spec fn name_asked(
    known: KnownView,
    k: int,
    candidate: Candidate,
    start: VersionView,
    i: int,
    name: (int, Text),
) -> bool {
    exists|h: int, version: VersionView|
        0 <= h < i && #[trigger] reaches(known, k, candidate, start, h, version) && asks_name(
            known,
            k,
            candidate,
            h,
            version,
            name,
        )
}

pub open spec fn version_asked(
    known: KnownView,
    k: int,
    candidate: Candidate,
    start: VersionView,
    i: int,
    asked: VersionView,
) -> bool {
    exists|h: int, version: VersionView|
        0 <= h < i && #[trigger] reaches(known, k, candidate, start, h, version) && asks_version(
            known,
            k,
            candidate,
            h,
            version,
            asked,
        )
}

pub open spec fn edge_asked(
    known: KnownView,
    k: int,
    candidate: Candidate,
    start: VersionView,
    i: int,
    edge: (Text, Text),
) -> bool {
    exists|h: int, version: VersionView|
        0 <= h < i && #[trigger] reaches(known, k, candidate, start, h, version) && asks_edge(
            known,
            k,
            candidate,
            h,
            version,
            edge,
        )
}

fn copy_versions(list: &Vec<Version>) -> (r: Vec<Version>)
    ensures
        r.deep_view() == list.deep_view(),
{
    let mut r: Vec<Version> = Vec::new();
    let mut i: usize = 0;
    while i < list.len()
        invariant
            i <= list@.len(),
            r@.len() == i,
            forall|j: int| #![trigger r@[j]] 0 <= j < i ==> r@[j]@ == list@[j]@,
        decreases list@.len() - i,
    {
        r.push(list[i].clone());
        i += 1;
    }
    assert(r.deep_view() =~= list.deep_view());
    r
}

/// Looks at every version that the walk reaches at commit `i`.
fn visit_commit(
    known: &Known,
    k: usize,
    candidate: &Candidate,
    Ghost(start): Ghost<VersionView>,
    i: usize,
    layers: &mut Vec<Vec<Version>>,
    questions: &mut Questions,
) -> (r: (bool, bool))
    requires
        i < known.commits@.len(),
        old(layers)@.len() == known.commits@.len(),
        forall|x: VersionView| #[trigger]
            old(layers)@[i as int].deep_view().contains(x) <==> reaches(
                known@,
                k as int,
                *candidate,
                start,
                i as int,
                x,
            ),
    ensures
        final(layers)@.len() == old(layers)@.len(),
        old(questions).is_distinct() ==> final(questions).is_distinct(),
        r.0 == edits_at(known@, k as int, *candidate, start, i as int),
        r.1 == exists|v: VersionView| #[trigger]
            reaches(known@, k as int, *candidate, start, i as int, v) && is_cut(
                known@,
                k as int,
                *candidate,
                i as int,
                v,
            ),
        forall|j: int, x: VersionView|
            0 <= j < old(layers)@.len() ==> (#[trigger] final(layers)@[j].deep_view().contains(x)
                <==> old(layers)@[j].deep_view().contains(x) || exists|v: VersionView| #[trigger]
                reaches(known@, k as int, *candidate, start, i as int, v) && leads(
                    known@,
                    k as int,
                    *candidate,
                    i as int,
                    v,
                    j,
                    x,
                )),
        forall|x: (int, Text)| #[trigger]
            final(questions).names.deep_view().contains(x) <==> old(
                questions,
            ).names.deep_view().contains(x) || exists|v: VersionView| #[trigger]
                reaches(known@, k as int, *candidate, start, i as int, v) && asks_name(
                    known@,
                    k as int,
                    *candidate,
                    i as int,
                    v,
                    x,
                ),
        forall|x: VersionView| #[trigger]
            final(questions).versions.deep_view().contains(x) <==> old(
                questions,
            ).versions.deep_view().contains(x) || exists|v: VersionView| #[trigger]
                reaches(known@, k as int, *candidate, start, i as int, v) && asks_version(
                    known@,
                    k as int,
                    *candidate,
                    i as int,
                    v,
                    x,
                ),
        forall|x: (Text, Text)| #[trigger]
            final(questions).edges.deep_view().contains(x) <==> old(
                questions,
            ).edges.deep_view().contains(x) || exists|v: VersionView| #[trigger]
                reaches(known@, k as int, *candidate, start, i as int, v) && asks_edge(
                    known@,
                    k as int,
                    *candidate,
                    i as int,
                    v,
                    x,
                ),
{
    let ghost all = known@;
    let ghost first_layers = layers@;
    let ghost first = *questions;
    let nodes = copy_versions(&layers[i]);
    let ghost list = nodes.deep_view();
    let ghost mut seen: Seq<VersionView> = Seq::empty();
    let mut edit: bool = false;
    let mut cut: bool = false;
    let mut q: usize = 0;
    while q < nodes.len()
        invariant
            i < known.commits@.len(),
            all == known@,
            first_layers.len() == known.commits@.len(),
            layers@.len() == first_layers.len(),
            list == nodes.deep_view(),
            q <= list.len(),
            seen == list.take(q as int),
            first.is_distinct() ==> questions.is_distinct(),
            edit == exists|v: VersionView| #[trigger]
                seen.contains(v) && standing(all, k as int, *candidate, i as int, v)
                    == Standing::Over && is_edit(all, i as int, v),
            cut == exists|v: VersionView| #[trigger]
                seen.contains(v) && is_cut(all, k as int, *candidate, i as int, v),
            forall|j: int, x: VersionView|
                0 <= j < first_layers.len() ==> (#[trigger] layers@[j].deep_view().contains(x)
                    <==> first_layers[j].deep_view().contains(x) || exists|v: VersionView| #[trigger]
                    seen.contains(v) && leads(all, k as int, *candidate, i as int, v, j, x)),
            forall|x: (int, Text)| #[trigger]
                questions.names.deep_view().contains(x) <==> first.names.deep_view().contains(x)
                    || exists|v: VersionView| #[trigger]
                    seen.contains(v) && asks_name(all, k as int, *candidate, i as int, v, x),
            forall|x: VersionView| #[trigger]
                questions.versions.deep_view().contains(x) <==> first.versions.deep_view().contains(
                    x,
                ) || exists|v: VersionView| #[trigger]
                    seen.contains(v) && asks_version(all, k as int, *candidate, i as int, v, x),
            forall|x: (Text, Text)| #[trigger]
                questions.edges.deep_view().contains(x) <==> first.edges.deep_view().contains(x)
                    || exists|v: VersionView| #[trigger]
                    seen.contains(v) && asks_edge(all, k as int, *candidate, i as int, v, x),
        decreases list.len() - q,
    {
        let ghost early = seen;
        let ghost node = nodes@[q as int]@;
        assert(list.take(q + 1) =~= early.push(node));
        let (edited, stopped) = visit(known, k, candidate, i, &nodes[q], layers, questions);
        edit = edit || edited;
        cut = cut || stopped;
        proof {
            seen = early.push(node);
            lemma_push_is_insert(early, node);
            assert(seen.contains(node));
            assert forall|v: VersionView| #[trigger] early.contains(v) implies seen.contains(v) by {}
        }
        q += 1;
    }
    proof {
        assert(seen =~= list);
        assert forall|v: VersionView| #[trigger] seen.contains(v) implies reaches(
            all,
            k as int,
            *candidate,
            start,
            i as int,
            v,
        ) by {
            assert(first_layers[i as int].deep_view().contains(v));
        }
        assert forall|v: VersionView| #[trigger]
            reaches(all, k as int, *candidate, start, i as int, v) implies seen.contains(v) by {
            assert(first_layers[i as int].deep_view().contains(v));
        }
    }
    (edit, cut)
}

/// Walks back from `HEAD`. Answers the number of edits over the soft limit and
/// whether the walk is cut somewhere; what has to be known first is added to
/// the questions.
pub fn walk(
    known: &Known,
    k: usize,
    candidate: &Candidate,
    start: &Version,
    questions: &mut Questions,
) -> (r: (u64, bool))
    requires
        0 < known.commits@.len() <= u64::MAX,
    ensures
        r.0 == edits_before(
            known@,
            k as int,
            *candidate,
            start@,
            known@.commits.len() as int,
        ),
        r.0 <= known@.commits.len(),
        old(questions).is_distinct() ==> final(questions).is_distinct(),
        r.1 == cut_before(known@, k as int, *candidate, start@, known@.commits.len() as int),
        forall|x: (int, Text)| #[trigger]
            final(questions).names.deep_view().contains(x) <==> old(
                questions,
            ).names.deep_view().contains(x) || name_asked(
                known@,
                k as int,
                *candidate,
                start@,
                known@.commits.len() as int,
                x,
            ),
        forall|x: VersionView| #[trigger]
            final(questions).versions.deep_view().contains(x) <==> old(
                questions,
            ).versions.deep_view().contains(x) || version_asked(
                known@,
                k as int,
                *candidate,
                start@,
                known@.commits.len() as int,
                x,
            ),
        forall|x: (Text, Text)| #[trigger]
            final(questions).edges.deep_view().contains(x) <==> old(
                questions,
            ).edges.deep_view().contains(x) || edge_asked(
                known@,
                k as int,
                *candidate,
                start@,
                known@.commits.len() as int,
                x,
            ),
{
    let ghost all = known@;
    let ghost c = *candidate;
    let ghost kk = k as int;
    let ghost first = *questions;
    let n: usize = known.commits.len();
    let mut layers: Vec<Vec<Version>> = Vec::new();
    let mut m: usize = 0;
    while m < n
        invariant
            m <= n,
            layers@.len() == m,
            forall|j: int| #![trigger layers@[j]] 0 <= j < m ==> layers@[j]@.len() == 0,
        decreases n - m,
    {
        layers.push(Vec::new());
        m += 1;
    }
    let ghost empty = layers@;
    add_to_layer(&mut layers, 0, start.clone());
    proof {
        assert forall|j: int, x: VersionView| 0 <= j < n implies (
        #[trigger] layers@[j].deep_view().contains(x) <==> came(all, kk, c, start@, 0, j, x)) by {
            assert(empty[j]@.len() == 0);
            assert(!empty[j].deep_view().contains(x));
        }
    }
    let mut edits: u64 = 0;
    let mut cut: bool = false;
    let mut i: usize = 0;
    while i < n
        invariant
            n == known.commits@.len(),
            n <= u64::MAX,
            all == known@,
            c == *candidate,
            kk == k as int,
            i <= n,
            layers@.len() == n,
            edits <= i,
            first.is_distinct() ==> questions.is_distinct(),
            edits == edits_before(all, kk, c, start@, i as int),
            cut == cut_before(all, kk, c, start@, i as int),
            forall|j: int, x: VersionView|
                0 <= j < n ==> (#[trigger] layers@[j].deep_view().contains(x) <==> came(
                    all,
                    kk,
                    c,
                    start@,
                    i as int,
                    j,
                    x,
                )),
            forall|x: (int, Text)| #[trigger]
                questions.names.deep_view().contains(x) <==> first.names.deep_view().contains(x)
                    || name_asked(all, kk, c, start@, i as int, x),
            forall|x: VersionView| #[trigger]
                questions.versions.deep_view().contains(x) <==> first.versions.deep_view().contains(
                    x,
                ) || version_asked(all, kk, c, start@, i as int, x),
            forall|x: (Text, Text)| #[trigger]
                questions.edges.deep_view().contains(x) <==> first.edges.deep_view().contains(x)
                    || edge_asked(all, kk, c, start@, i as int, x),
        decreases n - i,
    {
        let ghost here_layers = layers@;
        let ghost here = *questions;
        proof {
            assert forall|x: VersionView| #[trigger]
                layers@[i as int].deep_view().contains(x) <==> reaches(
                    all,
                    kk,
                    c,
                    start@,
                    i as int,
                    x,
                ) by {
                lemma_came(all, kk, c, start@, i as int, x);
            }
        }
        let (edited, stopped) = visit_commit(
            known,
            k,
            candidate,
            Ghost(start@),
            i,
            &mut layers,
            questions,
        );
        proof {
            assert forall|j: int, x: VersionView| 0 <= j < n implies (
            #[trigger] layers@[j].deep_view().contains(x) <==> came(
                all,
                kk,
                c,
                start@,
                i + 1,
                j,
                x,
            )) by {
                assert(here_layers[j].deep_view().contains(x) <==> came(
                    all,
                    kk,
                    c,
                    start@,
                    i as int,
                    j,
                    x,
                ));
                lemma_came_next(all, kk, c, start@, i as int, j, x);
            }
            assert forall|x: (int, Text)| #[trigger]
                questions.names.deep_view().contains(x) <==> first.names.deep_view().contains(x)
                    || name_asked(all, kk, c, start@, i + 1, x) by {
                assert(here.names.deep_view().contains(x) <==> first.names.deep_view().contains(x)
                    || name_asked(all, kk, c, start@, i as int, x));
                lemma_name_asked_next(all, kk, c, start@, i as int, x);
            }
            assert forall|x: VersionView| #[trigger]
                questions.versions.deep_view().contains(x) <==> first.versions.deep_view().contains(
                    x,
                ) || version_asked(all, kk, c, start@, i + 1, x) by {
                assert(here.versions.deep_view().contains(x)
                    <==> first.versions.deep_view().contains(x) || version_asked(
                    all,
                    kk,
                    c,
                    start@,
                    i as int,
                    x,
                ));
                lemma_version_asked_next(all, kk, c, start@, i as int, x);
            }
            assert forall|x: (Text, Text)| #[trigger]
                questions.edges.deep_view().contains(x) <==> first.edges.deep_view().contains(x)
                    || edge_asked(all, kk, c, start@, i + 1, x) by {
                assert(here.edges.deep_view().contains(x) <==> first.edges.deep_view().contains(x)
                    || edge_asked(all, kk, c, start@, i as int, x));
                lemma_edge_asked_next(all, kk, c, start@, i as int, x);
            }
            lemma_cut_next(all, kk, c, start@, i as int);
        }
        if edited {
            edits += 1;
        }
        cut = cut || stopped;
        i += 1;
    }
    (edits, cut)
}

proof fn lemma_came_next(
    known: KnownView,
    k: int,
    candidate: Candidate,
    start: VersionView,
    i: int,
    j: int,
    x: VersionView,
)
    requires
        0 <= i,
    ensures
        came(known, k, candidate, start, i + 1, j, x) <==> came(
            known,
            k,
            candidate,
            start,
            i,
            j,
            x,
        ) || exists|v: VersionView| #[trigger]
            reaches(known, k, candidate, start, i, v) && leads(known, k, candidate, i, v, j, x),
{
}

proof fn lemma_name_asked_next(
    known: KnownView,
    k: int,
    candidate: Candidate,
    start: VersionView,
    i: int,
    x: (int, Text),
)
    requires
        0 <= i,
    ensures
        name_asked(known, k, candidate, start, i + 1, x) <==> name_asked(
            known,
            k,
            candidate,
            start,
            i,
            x,
        ) || exists|v: VersionView| #[trigger]
            reaches(known, k, candidate, start, i, v) && asks_name(known, k, candidate, i, v, x),
{
}

proof fn lemma_version_asked_next(
    known: KnownView,
    k: int,
    candidate: Candidate,
    start: VersionView,
    i: int,
    x: VersionView,
)
    requires
        0 <= i,
    ensures
        version_asked(known, k, candidate, start, i + 1, x) <==> version_asked(
            known,
            k,
            candidate,
            start,
            i,
            x,
        ) || exists|v: VersionView| #[trigger]
            reaches(known, k, candidate, start, i, v) && asks_version(
                known,
                k,
                candidate,
                i,
                v,
                x,
            ),
{
}

proof fn lemma_edge_asked_next(
    known: KnownView,
    k: int,
    candidate: Candidate,
    start: VersionView,
    i: int,
    x: (Text, Text),
)
    requires
        0 <= i,
    ensures
        edge_asked(known, k, candidate, start, i + 1, x) <==> edge_asked(
            known,
            k,
            candidate,
            start,
            i,
            x,
        ) || exists|v: VersionView| #[trigger]
            reaches(known, k, candidate, start, i, v) && asks_edge(known, k, candidate, i, v, x),
{
}

proof fn lemma_cut_next(
    known: KnownView,
    k: int,
    candidate: Candidate,
    start: VersionView,
    i: int,
)
    requires
        0 <= i,
    ensures
        cut_before(known, k, candidate, start, i + 1) <==> cut_before(
            known,
            k,
            candidate,
            start,
            i,
        ) || exists|v: VersionView| #[trigger]
            reaches(known, k, candidate, start, i, v) && is_cut(known, k, candidate, i, v),
{
}

} // verus!
