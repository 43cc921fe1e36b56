//! The links of a history: for each commit and each of its parents, the
//! rename evidence between them.

use vstd::prelude::*;
use vstd::string::*;

use super::data::{Snapshot, SnapshotView};
use super::error::{failure, failure_at, HistoryError, HistoryErrorView};
use super::evidence::{carriers, entry_carriers, is_refinement, refine_exception_renames};
use super::git::{listing_fields, rename_records, unavailable, Outcome, RenameView, Repository};
use super::identity::{Transition, TransitionView};
use crate::order::{
    compare_texts, lemma_text_order_chains, lemma_text_order_flips, text_order, Order,
};
use crate::path_start::PathStyle;
use crate::text::{lemma_push_is_insert, same, Text};

verus! {

// ---------------------------------------------------------------------------
// Ambiguous blobs
// ---------------------------------------------------------------------------

/// An entry or a finding stands at the path.
pub open spec fn is_identified(s: SnapshotView, path: Text) -> bool {
    ||| exists|i: int| #![trigger s.entries[i]] 0 <= i < s.entries.len() && s.entries[i].address.path == path
    ||| exists|i: int|
        #![trigger s.findings[i]]
        0 <= i < s.findings.len() && s.findings[i].address.path == path
}

/// The path, identified in `here`, holds the blob and is no path of `there`.
pub open spec fn only_in(here: SnapshotView, there: SnapshotView, path: Text, blob: Text) -> bool {
    &&& is_identified(here, path)
    &&& !there.blobs.dom().contains(path)
    &&& here.blobs.dom().contains(path)
    &&& here.blobs[path] == blob
}

/// Two paths that are only in `here` hold the blob.
pub open spec fn twice_only_in(here: SnapshotView, there: SnapshotView, blob: Text) -> bool {
    exists|a: Text, b: Text| #[trigger]
        only_in(here, there, a, blob) && #[trigger] only_in(here, there, b, blob) && a != b
}

/// The blob leaves some identified path and arrives at another, and more than
/// one path would do for one of the sides.
pub open spec fn is_ambiguous(old: SnapshotView, new: SnapshotView, blob: Text) -> bool {
    &&& exists|path: Text| only_in(old, new, path, blob)
    &&& exists|path: Text| only_in(new, old, path, blob)
    &&& twice_only_in(old, new, blob) || twice_only_in(new, old, blob)
}

/// The first of the ambiguous blobs.
pub open spec fn is_first_ambiguous(old: SnapshotView, new: SnapshotView, blob: Text) -> bool {
    is_ambiguous(old, new, blob) && forall|other: Text| #[trigger]
        is_ambiguous(old, new, other) ==> text_order(blob, other) != Order::After
}

/// The first path at which the blob arrives.
pub open spec fn is_first_arrival(
    old: SnapshotView,
    new: SnapshotView,
    path: Text,
    blob: Text,
) -> bool {
    only_in(new, old, path, blob) && forall|other: Text| #[trigger]
        only_in(new, old, other, blob) ==> text_order(path, other) != Order::After
}

/// What is said of ambiguous evidence.
pub open spec fn ambiguous_at(path: Text) -> Text {
    "ambiguous rename evidence for "@ + path
}

/// The refusal of ambiguous evidence between two commits.
pub open spec fn is_ambiguity_error(
    range: Text,
    old: SnapshotView,
    new: SnapshotView,
    error: HistoryErrorView,
) -> bool {
    exists|blob: Text, path: Text| #[trigger]
        is_first_arrival(old, new, path, blob) && is_first_ambiguous(old, new, blob) && error
            == failure_at(range, new.sha, ambiguous_at(path))
}

/// The pairs are exactly the paths, with their blobs, that are only in `here`.
spec fn lists_only_in(here: SnapshotView, there: SnapshotView, pairs: Seq<(Text, Text)>) -> bool {
    forall|path: Text, blob: Text| #[trigger]
        pairs.contains((path, blob)) <==> only_in(here, there, path, blob)
}

/// The path could count among those that are only in `here`.
spec fn blob_only_in(here: SnapshotView, there: SnapshotView, path: Text) -> Option<Text> {
    if !there.blobs.dom().contains(path) && here.blobs.dom().contains(path) {
        Some(here.blobs[path])
    } else {
        None
    }
}

fn note_path(here: &Snapshot, there: &Snapshot, path: &str, pairs: &mut Vec<(String, String)>)
    ensures
        forall|pair: (Text, Text)| #[trigger]
            final(pairs).deep_view().contains(pair) <==> old(pairs).deep_view().contains(pair)
                || (pair.0 == path@ && blob_only_in(here@, there@, path@) == Some(pair.1)),
{
    let ghost before = pairs.deep_view();
    if !there.blobs.contains(path) {
        match here.blobs.get(path) {
            Some(blob) => {
                pairs.push((path.to_owned(), blob.clone()));
                let ghost last = (path@, blob@);
                assert(pairs.deep_view() =~= before.push(last));
                assert forall|pair: (Text, Text)| #[trigger]
                    pairs.deep_view().contains(pair) <==> before.contains(pair) || (pair.0
                        == path@ && blob_only_in(here@, there@, path@) == Some(pair.1)) by {
                    lemma_push_is_insert(before, last);
                    assert(here@.blobs[path@] == blob@);
                }
            },
            None => {},
        }
    }
}

/// The identified paths, with their blobs, that are only in `here`.
fn paths_only_in(here: &Snapshot, there: &Snapshot) -> (r: Vec<(String, String)>)
    ensures
        lists_only_in(here@, there@, r.deep_view()),
{
    let ghost entries = here@.entries;
    let ghost findings = here@.findings;
    let mut r: Vec<(String, String)> = Vec::new();
    let mut i: usize = 0;
    while i < here.entries.len()
        invariant
            i <= here.entries@.len(),
            entries == here@.entries,
            forall|pair: (Text, Text)| #[trigger]
                r.deep_view().contains(pair) <==> blob_only_in(here@, there@, pair.0) == Some(
                    pair.1,
                ) && exists|k: int|
                    #![trigger entries[k]]
                    0 <= k < i && entries[k].address.path == pair.0,
        decreases here.entries@.len() - i,
    {
        assert(entries[i as int] == here.entries@[i as int]@);
        note_path(here, there, here.entries[i].address.path.as_str(), &mut r);
        i += 1;
    }
    let mut j: usize = 0;
    while j < here.findings.len()
        invariant
            j <= here.findings@.len(),
            entries == here@.entries,
            findings == here@.findings,
            forall|pair: (Text, Text)| #[trigger]
                r.deep_view().contains(pair) <==> blob_only_in(here@, there@, pair.0) == Some(
                    pair.1,
                ) && ((exists|k: int|
                    #![trigger entries[k]]
                    0 <= k < entries.len() && entries[k].address.path == pair.0) || exists|k: int|
                    #![trigger findings[k]]
                    0 <= k < j && findings[k].address.path == pair.0),
        decreases here.findings@.len() - j,
    {
        assert(findings[j as int] == here.findings@[j as int]@);
        note_path(here, there, here.findings[j].address.path.as_str(), &mut r);
        j += 1;
    }
    r
}

/// Whether a second path holds the blob.
fn other_path(pairs: &Vec<(String, String)>, path: &str, blob: &str) -> (r: bool)
    ensures
        r == exists|other: Text| #[trigger]
            pairs.deep_view().contains((other, blob@)) && other != path@,
{
    let ghost all = pairs.deep_view();
    let mut i: usize = 0;
    while i < pairs.len()
        invariant
            i <= pairs@.len(),
            all == pairs.deep_view(),
            forall|j: int| #![trigger all[j]] 0 <= j < i ==> !(all[j].1 == blob@ && all[j].0 != path@),
        decreases pairs@.len() - i,
    {
        assert(all[i as int] == (pairs@[i as int].0@, pairs@[i as int].1@));
        if same(pairs[i].1.as_str(), blob) && !same(pairs[i].0.as_str(), path) {
            assert(all.contains((pairs@[i as int].0@, blob@)));
            return true;
        }
        i += 1;
    }
    false
}

/// The first path that holds the blob.
fn first_path(pairs: &Vec<(String, String)>, blob: &str) -> (r: Option<usize>)
    ensures
        match r {
            Some(i) => {
                &&& i < pairs@.len()
                &&& pairs@[i as int].1@ == blob@
                &&& forall|other: Text| #[trigger]
                    pairs.deep_view().contains((other, blob@)) ==> text_order(
                        pairs@[i as int].0@,
                        other,
                    ) != Order::After
            },
            None => forall|other: Text| !#[trigger] pairs.deep_view().contains((other, blob@)),
        },
{
    let ghost all = pairs.deep_view();
    let mut best: Option<usize> = None;
    let mut i: usize = 0;
    while i < pairs.len()
        invariant
            i <= pairs@.len(),
            all == pairs.deep_view(),
            match best {
                Some(k) => {
                    &&& k < i
                    &&& all[k as int].1 == blob@
                    &&& forall|j: int|
                        #![trigger all[j]]
                        0 <= j < i && all[j].1 == blob@ ==> text_order(all[k as int].0, all[j].0)
                            != Order::After
                },
                None => forall|j: int| #![trigger all[j]] 0 <= j < i ==> all[j].1 != blob@,
            },
        decreases pairs@.len() - i,
    {
        assert(all[i as int] == (pairs@[i as int].0@, pairs@[i as int].1@));
        if same(pairs[i].1.as_str(), blob) {
            proof {
                lemma_text_order_flips(all[i as int].0, all[i as int].0);
            }
            match best {
                Some(k) => {
                    assert(all[k as int] == (pairs@[k as int].0@, pairs@[k as int].1@));
                    let here = compare_texts(pairs[i].0.as_str(), pairs[k].0.as_str());
                    proof {
                        lemma_text_order_flips(all[i as int].0, all[k as int].0);
                    }
                    match here {
                        Order::Before => {
                            proof {
                                assert forall|j: int|
                                    #![trigger all[j]]
                                    0 <= j < i && all[j].1 == blob@ implies text_order(
                                    all[i as int].0,
                                    all[j].0,
                                ) != Order::After by {
                                    lemma_text_order_chains(
                                        all[i as int].0,
                                        all[k as int].0,
                                        all[j].0,
                                    );
                                }
                            }
                            best = Some(i);
                        },
                        _ => {},
                    }
                },
                None => {
                    best = Some(i);
                },
            }
        }
        i += 1;
    }
    best
}

/// Whether the blob of a path that is gone is ambiguous.
fn blob_is_ambiguous(
    Ghost(old): Ghost<SnapshotView>,
    Ghost(new): Ghost<SnapshotView>,
    gone: &Vec<(String, String)>,
    come: &Vec<(String, String)>,
    at: usize,
) -> (r: bool)
    requires
        at < gone@.len(),
        lists_only_in(old, new, gone.deep_view()),
        lists_only_in(new, old, come.deep_view()),
    ensures
        r == is_ambiguous(old, new, gone@[at as int].1@),
{
    let ghost left = gone.deep_view();
    let ghost right = come.deep_view();
    let ghost path = gone@[at as int].0@;
    let ghost blob = gone@[at as int].1@;
    assert(left[at as int] == (path, blob));
    assert(left.contains((path, blob)));
    match first_path(come, gone[at].1.as_str()) {
        Some(k) => {
            let ghost place = come@[k as int].0@;
            assert(right[k as int] == (place, blob));
            assert(right.contains((place, blob)));
            let more_gone = other_path(gone, gone[at].0.as_str(), gone[at].1.as_str());
            let more_come = other_path(come, come[k].0.as_str(), gone[at].1.as_str());
            proof {
                if more_gone {
                    let other = choose|other: Text| #[trigger]
                        left.contains((other, blob)) && other != path;
                    assert(only_in(old, new, other, blob) && only_in(old, new, path, blob));
                }
                if more_come {
                    let other = choose|other: Text| #[trigger]
                        right.contains((other, blob)) && other != place;
                    assert(only_in(new, old, other, blob) && only_in(new, old, place, blob));
                }
                if twice_only_in(old, new, blob) {
                    let (a, b) = choose|a: Text, b: Text| #[trigger]
                        only_in(old, new, a, blob) && #[trigger] only_in(old, new, b, blob) && a
                            != b;
                    assert(left.contains((a, blob)));
                    assert(left.contains((b, blob)));
                }
                if twice_only_in(new, old, blob) {
                    let (a, b) = choose|a: Text, b: Text| #[trigger]
                        only_in(new, old, a, blob) && #[trigger] only_in(new, old, b, blob) && a
                            != b;
                    assert(right.contains((a, blob)));
                    assert(right.contains((b, blob)));
                }
            }
            more_gone || more_come
        },
        None => {
            proof {
                if is_ambiguous(old, new, blob) {
                    let place = choose|place: Text| only_in(new, old, place, blob);
                    assert(right.contains((place, blob)));
                }
            }
            false
        },
    }
}

/// The place of the first ambiguous blob among the paths that are gone.
fn first_ambiguous(
    Ghost(old): Ghost<SnapshotView>,
    Ghost(new): Ghost<SnapshotView>,
    gone: &Vec<(String, String)>,
    come: &Vec<(String, String)>,
) -> (r: Option<usize>)
    requires
        lists_only_in(old, new, gone.deep_view()),
        lists_only_in(new, old, come.deep_view()),
    ensures
        match r {
            Some(i) => i < gone@.len() && is_first_ambiguous(old, new, gone@[i as int].1@),
            None => forall|blob: Text| !#[trigger] is_ambiguous(old, new, blob),
        },
{
    let mut best: Option<usize> = None;
    let mut i: usize = 0;
    let ghost left = gone.deep_view();
    while i < gone.len()
        invariant
            i <= gone@.len(),
            left == gone.deep_view(),
            lists_only_in(old, new, gone.deep_view()),
            lists_only_in(new, old, come.deep_view()),
            match best {
                Some(k) => {
                    &&& k < i
                    &&& is_ambiguous(old, new, left[k as int].1)
                    &&& forall|j: int|
                        #![trigger left[j]]
                        0 <= j < i && is_ambiguous(old, new, left[j].1) ==> text_order(
                            left[k as int].1,
                            left[j].1,
                        ) != Order::After
                },
                None => forall|j: int|
                    #![trigger left[j]]
                    0 <= j < i ==> !is_ambiguous(old, new, left[j].1),
            },
        decreases gone@.len() - i,
    {
        assert(left[i as int] == (gone@[i as int].0@, gone@[i as int].1@));
        if blob_is_ambiguous(Ghost(old), Ghost(new), gone, come, i) {
            proof {
                lemma_text_order_flips(left[i as int].1, left[i as int].1);
            }
            match best {
                Some(k) => {
                    assert(left[k as int] == (gone@[k as int].0@, gone@[k as int].1@));
                    let here = compare_texts(gone[i].1.as_str(), gone[k].1.as_str());
                    proof {
                        lemma_text_order_flips(left[i as int].1, left[k as int].1);
                    }
                    match here {
                        Order::Before => {
                            proof {
                                assert forall|j: int|
                                    #![trigger left[j]]
                                    0 <= j < i && is_ambiguous(old, new, left[j].1) implies text_order(
                                    left[i as int].1,
                                    left[j].1,
                                ) != Order::After by {
                                    lemma_text_order_chains(
                                        left[i as int].1,
                                        left[k as int].1,
                                        left[j].1,
                                    );
                                }
                            }
                            best = Some(i);
                        },
                        _ => {},
                    }
                },
                None => {
                    best = Some(i);
                },
            }
        }
        i += 1;
    }
    proof {
        assert forall|blob: Text| #[trigger] is_ambiguous(old, new, blob) implies exists|j: int|
            #![trigger left[j]]
            0 <= j < left.len() && left[j].1 == blob by {
            let path = choose|path: Text| only_in(old, new, path, blob);
            assert(left.contains((path, blob)));
            let j = choose|j: int| 0 <= j < left.len() && left[j] == (path, blob);
            assert(left[j].1 == blob);
        }
        if let Some(k) = best {
            assert(left[k as int] == (gone@[k as int].0@, gone@[k as int].1@));
        }
    }
    best
}

/// Refuses a pair of commits whose rename evidence is ambiguous.
pub fn refuse_ambiguous_blob_groups(
    repository: &Repository,
    old: &Snapshot,
    new: &Snapshot,
) -> (r: Result<(), HistoryError>)
    ensures
        match r {
            Ok(_) => forall|blob: Text| !#[trigger] is_ambiguous(old@, new@, blob),
            Err(error) => is_ambiguity_error(repository.range@, old@, new@, error@),
        },
        r is Ok <==> forall|blob: Text| !#[trigger] is_ambiguous(old@, new@, blob),
{
    let gone = paths_only_in(old, new);
    let come = paths_only_in(new, old);
    match first_ambiguous(Ghost(old@), Ghost(new@), &gone, &come) {
        Some(i) => {
            let ghost blob = gone@[i as int].1@;
            let ghost right = come.deep_view();
            match first_path(&come, gone[i].1.as_str()) {
                Some(k) => {
                    let mut cause = "ambiguous rename evidence for ".to_owned();
                    cause.append(come[k].0.as_str());
                    proof {
                        let path = come@[k as int].0@;
                        assert(right[k as int] == (path, blob));
                        assert(right.contains((path, blob)));
                        assert forall|other: Text| #[trigger]
                            only_in(new@, old@, other, blob) implies text_order(path, other)
                            != Order::After by {
                            assert(right.contains((other, blob)));
                        }
                        assert(is_first_arrival(old@, new@, path, blob));
                    }
                    Err(repository.error_at(new.sha.as_str(), cause.as_str()))
                },
                None => {
                    proof {
                        let place = choose|place: Text| only_in(new@, old@, place, blob);
                        assert(right.contains((place, blob)));
                    }
                    Ok(())
                },
            }
        },
        None => Ok(()),
    }
}

// ---------------------------------------------------------------------------
// Links
// ---------------------------------------------------------------------------

/// The place of the commit: the last one that has its name.
pub open spec fn place_of(snapshots: Seq<SnapshotView>, sha: Text) -> Option<int>
    decreases snapshots.len(),
{
    if snapshots.len() == 0 {
        None
    } else if snapshots.last().sha == sha {
        Some(snapshots.len() - 1)
    } else {
        place_of(snapshots.drop_last(), sha)
    }
}

pub proof fn lemma_place_of(snapshots: Seq<SnapshotView>, sha: Text)
    ensures
        match place_of(snapshots, sha) {
            Some(i) => {
                &&& 0 <= i < snapshots.len()
                &&& snapshots[i].sha == sha
                &&& forall|j: int|
                    #![trigger snapshots[j]]
                    i < j < snapshots.len() ==> snapshots[j].sha != sha
            },
            None => forall|j: int|
                #![trigger snapshots[j]]
                0 <= j < snapshots.len() ==> snapshots[j].sha != sha,
        },
    decreases snapshots.len(),
{
    if snapshots.len() > 0 && snapshots.last().sha != sha {
        let head = snapshots.drop_last();
        lemma_place_of(head, sha);
        assert forall|j: int| #![trigger snapshots[j]] 0 <= j < head.len() implies snapshots[j]
            == head[j] by {}
    }
}

/// The place of the commit among the first `end`.
pub fn find_place(snapshots: &Vec<Snapshot>, end: usize, sha: &str) -> (r: Option<usize>)
    requires
        end <= snapshots@.len(),
    ensures
        match r {
            Some(i) => i < end && place_of(snapshots.deep_view().take(end as int), sha@) == Some(
                i as int,
            ),
            None => place_of(snapshots.deep_view().take(end as int), sha@) is None,
        },
{
    let ghost all = snapshots.deep_view();
    let ghost whole = all.take(end as int);
    let mut i: usize = end;
    while i > 0
        invariant
            i <= end <= snapshots@.len(),
            all == snapshots.deep_view(),
            whole == all.take(end as int),
            place_of(whole, sha@) == place_of(all.take(i as int), sha@),
        decreases i,
    {
        assert(all.take(i as int).drop_last() =~= all.take(i - 1));
        assert(all.take(i as int).last() == snapshots@[i - 1]@);
        if same(snapshots[i - 1].sha.as_str(), sha) {
            return Some(i - 1);
        }
        i -= 1;
    }
    None
}

/// The links of one commit, in the order of its parents: the place of each
/// known parent with the commit's own.
pub open spec fn parent_links(
    snapshots: Seq<SnapshotView>,
    parents: Seq<Text>,
    child: int,
) -> Seq<(int, int)>
    decreases parents.len(),
{
    if parents.len() == 0 {
        Seq::empty()
    } else {
        let rest = parent_links(snapshots, parents.drop_last(), child);
        match place_of(snapshots, parents.last()) {
            Some(i) => rest.push((i, child)),
            None => rest,
        }
    }
}

/// The links of the first `end` commits, in order.
pub open spec fn links_before(snapshots: Seq<SnapshotView>, end: int) -> Seq<(int, int)>
    decreases end,
{
    if end <= 0 {
        Seq::empty()
    } else {
        links_before(snapshots, end - 1) + parent_links(
            snapshots,
            snapshots[end - 1].parents,
            end - 1,
        )
    }
}

/// Every link of a history, in order.
pub open spec fn all_links(snapshots: Seq<SnapshotView>) -> Seq<(int, int)> {
    links_before(snapshots, snapshots.len() as int)
}

/// The places of links.
pub open spec fn link_places(links: Seq<(usize, usize)>) -> Seq<(int, int)> {
    links.map_values(|link: (usize, usize)| (link.0 as int, link.1 as int))
}

fn push_parent_links(snapshots: &Vec<Snapshot>, child: usize, links: &mut Vec<(usize, usize)>)
    requires
        child < snapshots@.len(),
    ensures
        link_places(final(links)@) == link_places(old(links)@) + parent_links(
            snapshots.deep_view(),
            snapshots@[child as int]@.parents,
            child as int,
        ),
        forall|k: int|
            #![trigger final(links)@[k]]
            old(links)@.len() <= k < final(links)@.len() ==> final(links)@[k].0
                < snapshots@.len() && final(links)@[k].1 == child,
        final(links)@.len() >= old(links)@.len(),
        final(links)@.take(old(links)@.len() as int) == old(links)@,
{
    let ghost all = snapshots.deep_view();
    let ghost parents = snapshots@[child as int]@.parents;
    let ghost before = links@;
    let n: usize = snapshots.len();
    let mut i: usize = 0;
    assert(link_places(links@) =~= link_places(before) + parent_links(
        all,
        parents.take(0),
        child as int,
    ));
    assert(links@.take(before.len() as int) =~= before);
    while i < snapshots[child].parents.len()
        invariant
            child < snapshots@.len(),
            n == snapshots@.len(),
            i <= snapshots@[child as int].parents@.len(),
            all == snapshots.deep_view(),
            parents == snapshots@[child as int]@.parents,
            links@.len() >= before.len(),
            links@.take(before.len() as int) == before,
            forall|k: int|
                #![trigger links@[k]]
                before.len() <= k < links@.len() ==> links@[k].0 < snapshots@.len() && links@[k].1
                    == child,
            link_places(links@) == link_places(before) + parent_links(
                all,
                parents.take(i as int),
                child as int,
            ),
        decreases snapshots@[child as int].parents@.len() - i,
    {
        assert(parents.take(i + 1).drop_last() =~= parents.take(i as int));
        assert(parents.take(i + 1).last() == snapshots@[child as int].parents@[i as int]@);
        assert(all.take(n as int) =~= all);
        match find_place(snapshots, n, snapshots[child].parents[i].as_str()) {
            Some(at) => {
                let ghost here = links@;
                links.push((at, child));
                assert(link_places(links@) =~= link_places(here).push((at as int, child as int)));
                assert(links@.take(before.len() as int) =~= here.take(before.len() as int));
            },
            None => {},
        }
        assert(link_places(links@) =~= link_places(before) + parent_links(
            all,
            parents.take(i + 1),
            child as int,
        ));
        i += 1;
    }
    assert(parents.take(i as int) =~= parents);
}

/// The links of a history: for each commit, each of its known parents.
pub fn edges(snapshots: &Vec<Snapshot>) -> (r: Vec<(usize, usize)>)
    ensures
        link_places(r@) == all_links(snapshots.deep_view()),
        forall|k: int|
            #![trigger r@[k]]
            0 <= k < r@.len() ==> r@[k].0 < snapshots@.len() && r@[k].1 < snapshots@.len(),
{
    let ghost all = snapshots.deep_view();
    let mut r: Vec<(usize, usize)> = Vec::new();
    let mut i: usize = 0;
    assert(link_places(r@) =~= links_before(all, 0));
    while i < snapshots.len()
        invariant
            i <= snapshots@.len(),
            all == snapshots.deep_view(),
            link_places(r@) == links_before(all, i as int),
            forall|k: int|
                #![trigger r@[k]]
                0 <= k < r@.len() ==> r@[k].0 < snapshots@.len() && r@[k].1 < snapshots@.len(),
        decreases snapshots@.len() - i,
    {
        assert(all[i as int] == snapshots@[i as int]@);
        let ghost before = r@;
        push_parent_links(snapshots, i, &mut r);
        assert forall|k: int| #![trigger r@[k]] 0 <= k < r@.len() implies r@[k].0 < snapshots@.len()
            && r@[k].1 < snapshots@.len() by {
            if k < before.len() {
                assert(r@.take(before.len() as int)[k] == before[k]);
            }
        }
        i += 1;
    }
    r
}

/// The rename evidence between a commit and one of its parents.
#[derive(Debug)]
pub struct Link {
    pub old: String,
    pub new: String,
    pub transition: Transition,
}

pub struct LinkView {
    pub old: Text,
    pub new: Text,
    pub transition: TransitionView,
}

impl View for Link {
    type V = LinkView;

    open spec fn view(&self) -> LinkView {
        LinkView { old: self.old@, new: self.new@, transition: self.transition@ }
    }
}

impl DeepView for Link {
    type V = LinkView;

    open spec fn deep_view(&self) -> LinkView {
        self@
    }
}

/// The links of a history.
#[derive(Debug)]
pub struct Transitions {
    pub links: Vec<Link>,
}

impl View for Transitions {
    type V = Seq<LinkView>;

    open spec fn view(&self) -> Seq<LinkView> {
        self.links.deep_view()
    }
}

/// The evidence from one commit to another: that of the last such link.
pub open spec fn evidence_for(links: Seq<LinkView>, old: Text, new: Text) -> Option<TransitionView>
    decreases links.len(),
{
    if links.len() == 0 {
        None
    } else if links.last().old == old && links.last().new == new {
        Some(links.last().transition)
    } else {
        evidence_for(links.drop_last(), old, new)
    }
}

impl Transitions {
    /// The evidence from one commit to another.
    pub fn get(&self, old: &str, new: &str) -> (r: Option<&Transition>)
        ensures
            match r {
                Some(transition) => evidence_for(self@, old@, new@) == Some(transition@),
                None => evidence_for(self@, old@, new@) is None,
            },
    {
        let ghost all = self@;
        let mut i: usize = self.links.len();
        assert(all.take(i as int) =~= all);
        while i > 0
            invariant
                i <= self.links@.len(),
                all == self@,
                evidence_for(all, old@, new@) == evidence_for(all.take(i as int), old@, new@),
            decreases i,
        {
            assert(all.take(i as int).drop_last() =~= all.take(i - 1));
            assert(all.take(i as int).last() == self.links@[i - 1]@);
            if same(self.links[i - 1].old.as_str(), old) && same(
                self.links[i - 1].new.as_str(),
                new,
            ) {
                return Some(&self.links[i - 1].transition);
            }
            i -= 1;
        }
        None
    }
}

/// The rename evidence of an answer from Git.
pub open spec fn records_in(outcome: Outcome) -> Option<Seq<RenameView>> {
    match outcome {
        Ok(output) => if output.success {
            rename_records(listing_fields(output.stdout@))
        } else {
            None
        },
        Err(_) => None,
    }
}

/// The answer holds evidence that can be used.
pub open spec fn is_usable(old: SnapshotView, new: SnapshotView, outcome: Outcome) -> bool {
    records_in(outcome) is Some && forall|blob: Text| !#[trigger] is_ambiguous(old, new, blob)
}

/// The transition is what the answer proves.
pub open spec fn is_transition(
    style: PathStyle,
    old: SnapshotView,
    new: SnapshotView,
    outcome: Outcome,
    transition: Transition,
) -> bool {
    &&& is_usable(old, new, outcome)
    &&& transition.style == style
    &&& is_refinement(style, old, new, records_in(outcome).unwrap(), transition.renames@)
    &&& transition@.entry_renames == carriers(old, new, transition@.renames)
}

/// The refusal of an answer that cannot be used.
pub open spec fn is_refusal(
    range: Text,
    old: SnapshotView,
    new: SnapshotView,
    outcome: Outcome,
    error: HistoryErrorView,
) -> bool {
    match outcome {
        Err(reason) => error == failure(range, unavailable(reason@)),
        Ok(output) => if !output.success {
            error == failure_at(range, new.sha, "rename evidence is unavailable"@)
        } else if records_in(outcome) is None {
            error == failure_at(range, new.sha, "Git returned malformed rename evidence"@)
        } else {
            is_ambiguity_error(range, old, new, error)
        },
    }
}

/// The transition that an answer from Git proves.
pub fn transition(
    repository: &Repository,
    old: &Snapshot,
    new: &Snapshot,
    outcome: Outcome,
) -> (r: Result<Transition, HistoryError>)
    ensures
        match r {
            Ok(transition) => is_transition(repository.style, old@, new@, outcome, transition),
            Err(error) => !is_usable(old@, new@, outcome) && is_refusal(
                repository.range@,
                old@,
                new@,
                outcome,
                error@,
            ),
        },
{
    let raw = match repository.renames(new.sha.as_str(), outcome) {
        Ok(raw) => raw,
        Err(error) => {
            return Err(error);
        },
    };
    let renames = refine_exception_renames(repository.style, old, new, raw);
    match refuse_ambiguous_blob_groups(repository, old, new) {
        Ok(_) => {},
        Err(error) => {
            return Err(error);
        },
    }
    let entry_renames = entry_carriers(old, new, &renames);
    Ok(Transition { style: repository.style, renames, entry_renames })
}

/// The links up to `end` are what the answers prove.
pub open spec fn are_transitions(
    style: PathStyle,
    snapshots: Seq<SnapshotView>,
    places: Seq<(int, int)>,
    outcomes: Seq<Outcome>,
    links: Seq<Link>,
) -> bool {
    forall|k: int|
        #![trigger links[k]]
        0 <= k < links.len() ==> {
            let old = snapshots[places[k].0];
            let new = snapshots[places[k].1];
            &&& links[k].old@ == old.sha
            &&& links[k].new@ == new.sha
            &&& is_transition(style, old, new, outcomes[k], links[k].transition)
        }
}

/// The first answer that cannot be used is refused.
pub open spec fn is_first_refusal(
    range: Text,
    snapshots: Seq<SnapshotView>,
    places: Seq<(int, int)>,
    outcomes: Seq<Outcome>,
    at: int,
    error: HistoryErrorView,
) -> bool {
    &&& 0 <= at < places.len()
    &&& !is_usable(snapshots[places[at].0], snapshots[places[at].1], outcomes[at])
    &&& is_refusal(range, snapshots[places[at].0], snapshots[places[at].1], outcomes[at], error)
    &&& forall|k: int|
        #![trigger outcomes[k]]
        0 <= k < at ==> is_usable(snapshots[places[k].0], snapshots[places[k].1], outcomes[k])
}

/// The links of a history, from Git's answer for each of its edges.
pub fn transitions(
    repository: &Repository,
    snapshots: &Vec<Snapshot>,
    outcomes: Vec<Outcome>,
) -> (r: Result<Transitions, HistoryError>)
    requires
        outcomes@.len() == all_links(snapshots.deep_view()).len(),
    ensures
        match r {
            Ok(found) => found.links@.len() == outcomes@.len() && are_transitions(
                repository.style,
                snapshots.deep_view(),
                all_links(snapshots.deep_view()),
                outcomes@,
                found.links@,
            ),
            Err(error) => exists|at: int| #[trigger]
                is_first_refusal(
                    repository.range@,
                    snapshots.deep_view(),
                    all_links(snapshots.deep_view()),
                    outcomes@,
                    at,
                    error@,
                ),
        },
{
    let ghost all = snapshots.deep_view();
    let ghost given = outcomes@;
    let places = edges(snapshots);
    let ghost wanted = all_links(all);
    let mut links: Vec<Link> = Vec::new();
    for outcome in it: outcomes
        invariant
            it.seq() == given,
            links@.len() == it.index(),
            all == snapshots.deep_view(),
            wanted == all_links(all),
            link_places(places@) == wanted,
            given.len() == wanted.len(),
            forall|k: int|
                #![trigger places@[k]]
                0 <= k < places@.len() ==> places@[k].0 < snapshots@.len() && places@[k].1
                    < snapshots@.len(),
            are_transitions(repository.style, all, wanted, given, links@),
    {
        let k: usize = links.len();
        assert(outcome == given[k as int]);
        assert(wanted[k as int] == (places@[k as int].0 as int, places@[k as int].1 as int));
        let old = &snapshots[places[k].0];
        let new = &snapshots[places[k].1];
        match transition(repository, old, new, outcome) {
            Ok(found) => {
                let ghost before = links@;
                links.push(
                    Link { old: old.sha.clone(), new: new.sha.clone(), transition: found },
                );
                assert forall|j: int| #![trigger links@[j]] 0 <= j < links@.len() implies {
                    let old = all[wanted[j].0];
                    let new = all[wanted[j].1];
                    &&& links@[j].old@ == old.sha
                    &&& links@[j].new@ == new.sha
                    &&& is_transition(repository.style, old, new, given[j], links@[j].transition)
                } by {
                    if j < before.len() {
                        assert(links@[j] == before[j]);
                    }
                }
            },
            Err(error) => {
                proof {
                    assert forall|j: int| #![trigger given[j]] 0 <= j < k implies is_usable(
                        all[wanted[j].0],
                        all[wanted[j].1],
                        given[j],
                    ) by {
                        assert(is_transition(
                            repository.style,
                            all[wanted[j].0],
                            all[wanted[j].1],
                            given[j],
                            links@[j].transition,
                        ));
                    }
                    assert(is_first_refusal(
                        repository.range@,
                        all,
                        wanted,
                        given,
                        k as int,
                        error@,
                    ));
                }
                return Err(error);
            },
        }
    }
    Ok(Transitions { links })
}

} // verus!
