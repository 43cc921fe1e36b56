//! What holds of every comparison.

use vstd::prelude::*;

use super::ages::{
    days_between, first_seen, first_seen_of_parents, inherited, is_elapsed, is_latest, latest_of,
    predecessor, has_state, Traced,
};
use super::ancestry::{descends, is_parent, is_walk, lemma_descends_parent, lemma_descends_self};
use super::compare::{
    added_of, changed_of, history_of, is_continued, landing, lands, lands_with, lemma_value_at, renamed_of,
    retired_of, value_at,
};
use super::data::{
    AddressView, CeilingView, ChangeView, EntryState, EntryView, FindingView, MovementKind,
    RenamedView, SnapshotView,
};
use super::eval::{hits_findings, scan_findings, FileOutcome, Judged, Scanned};
use super::evidence::has_address;
use super::git::{begins, rename_records, RenameKind, RenameView};
use super::identity::{mapped_path, TransitionView};
use super::movement::{goes_to, is_step, place_since, MappingView};
use super::report::{counts_view, history_json, HistoryView};
use super::transitions::{evidence_for, lemma_place_of, place_of, LinkView};
use crate::json::JsonView;
use crate::path_start::PathStyle;
use crate::text::Text;

verus! {

// ---------------------------------------------------------------------------
// Identity
// ---------------------------------------------------------------------------

/// Two addresses that agree on everything but where the entry and its file
/// stand.
pub open spec fn same_entry(a: AddressView, b: AddressView) -> bool {
    &&& a.severity == b.severity
    &&& a.match_kind == b.match_kind
    &&& a.unit == b.unit
    &&& a.rules == b.rules
}

/// Whatever the evidence, an entry keeps its severity, match, unit and rules. A
/// change of one of them is a retirement and an addition.
pub proof fn lemma_identity_is_kept(
    snapshots: Seq<SnapshotView>,
    links: Seq<LinkView>,
    from: int,
    start: AddressView,
    i: int,
    found: MappingView,
)
    requires
        goes_to(snapshots, links, from, start, i, found),
    ensures
        same_entry(start, found.address),
    decreases i,
{
    if i > from {
        let (p, previous) = choose|p: int, previous: MappingView|
            {
                &&& #[trigger] is_step(snapshots, links, from, i, p, previous, found)
                &&& 0 <= place_since(snapshots, from, i, snapshots[i].parents[p]).unwrap() < i
                &&& goes_to(
                    snapshots,
                    links,
                    from,
                    start,
                    place_since(snapshots, from, i, snapshots[i].parents[p]).unwrap(),
                    previous,
                )
            };
        lemma_identity_is_kept(
            snapshots,
            links,
            from,
            start,
            place_since(snapshots, from, i, snapshots[i].parents[p]).unwrap(),
            previous,
        );
    }
}

proof fn lemma_landing_keeps_identity(
    snapshots: Seq<SnapshotView>,
    links: Seq<LinkView>,
    from: int,
    a: AddressView,
)
    ensures
        landing(snapshots, links, from, a) matches Some(b) ==> same_entry(a, b) && has_address(
            snapshots.last().entries,
            b,
        ),
{
    if let Some(b) = landing(snapshots, links, from, a) {
        assert(lands(snapshots, links, from, a, b));
        let kind = choose|kind: Option<MovementKind>|
            lands_with(snapshots, links, from, a, b, kind);
        lemma_identity_is_kept(
            snapshots,
            links,
            from,
            a,
            snapshots.len() - 1,
            MappingView { address: b, kind },
        );
    }
}

proof fn lemma_renamed_origin(
    snapshots: Seq<SnapshotView>,
    links: Seq<LinkView>,
    from: int,
    olds: Seq<EntryView>,
    m: int,
) -> (i: int)
    requires
        0 <= m < renamed_of(snapshots, links, from, olds).len(),
    ensures
        0 <= i < olds.len(),
        olds[i].address == renamed_of(snapshots, links, from, olds)[m].old,
        landing(snapshots, links, from, olds[i].address) == Some(
            renamed_of(snapshots, links, from, olds)[m].new,
        ),
    decreases olds.len(),
{
    let rest = renamed_of(snapshots, links, from, olds.drop_last());
    if m < rest.len() {
        let i = lemma_renamed_origin(snapshots, links, from, olds.drop_last(), m);
        assert(olds.drop_last()[i] == olds[i]);
        i
    } else {
        olds.len() - 1
    }
}

proof fn lemma_retired_origin(
    snapshots: Seq<SnapshotView>,
    links: Seq<LinkView>,
    from: int,
    olds: Seq<EntryView>,
    m: int,
)
    requires
        0 <= m < retired_of(snapshots, links, from, olds).len(),
    ensures
        landing(
            snapshots,
            links,
            from,
            retired_of(snapshots, links, from, olds)[m].address,
        ) is None,
    decreases olds.len(),
{
    let rest = retired_of(snapshots, links, from, olds.drop_last());
    if m < rest.len() {
        lemma_retired_origin(snapshots, links, from, olds.drop_last(), m);
    }
}

proof fn lemma_added_origin(
    snapshots: Seq<SnapshotView>,
    links: Seq<LinkView>,
    from: int,
    news: Seq<EntryView>,
    m: int,
)
    requires
        0 <= m < added_of(snapshots, links, from, news).len(),
    ensures
        !is_continued(
            snapshots,
            links,
            from,
            snapshots[from].entries,
            added_of(snapshots, links, from, news)[m].address,
        ),
    decreases news.len(),
{
    let rest = added_of(snapshots, links, from, news.drop_last());
    if m < rest.len() {
        lemma_added_origin(snapshots, links, from, news.drop_last(), m);
    }
}

/// A renamed entry is neither retired at its old address nor added at its new
/// one.
pub proof fn lemma_renamed_is_not_added_or_retired(
    snapshots: Seq<SnapshotView>,
    links: Seq<LinkView>,
    from: int,
    renamed: int,
    added: int,
    retired: int,
)
    requires
        0 <= renamed < history_of(snapshots, links, from).renamed.len(),
    ensures
        0 <= added < history_of(snapshots, links, from).added.len() ==> history_of(
            snapshots,
            links,
            from,
        ).added[added].address != history_of(snapshots, links, from).renamed[renamed].new,
        0 <= retired < history_of(snapshots, links, from).retired.len() ==> history_of(
            snapshots,
            links,
            from,
        ).retired[retired].address != history_of(snapshots, links, from).renamed[renamed].old,
{
    let olds = snapshots[from].entries;
    let h = history_of(snapshots, links, from);
    let i = lemma_renamed_origin(snapshots, links, from, olds, renamed);
    if 0 <= added < h.added.len() {
        lemma_added_origin(snapshots, links, from, snapshots.last().entries, added);
        assert(olds[i].address == h.renamed[renamed].old);
    }
    if 0 <= retired < h.retired.len() {
        lemma_retired_origin(snapshots, links, from, olds, retired);
    }
}

/// A rename changes the address and keeps the entry: its severity, match, unit
/// and rules stay.
pub proof fn lemma_rename_keeps_the_entry(
    snapshots: Seq<SnapshotView>,
    links: Seq<LinkView>,
    from: int,
    m: int,
)
    requires
        0 <= m < history_of(snapshots, links, from).renamed.len(),
    ensures
        same_entry(
            history_of(snapshots, links, from).renamed[m].old,
            history_of(snapshots, links, from).renamed[m].new,
        ),
        history_of(snapshots, links, from).renamed[m].old != history_of(
            snapshots,
            links,
            from,
        ).renamed[m].new,
{
    let olds = snapshots[from].entries;
    let i = lemma_renamed_origin(snapshots, links, from, olds, m);
    lemma_landing_keeps_identity(snapshots, links, from, olds[i].address);
    lemma_renamed_differs(snapshots, links, from, olds, m);
}

proof fn lemma_renamed_differs(
    snapshots: Seq<SnapshotView>,
    links: Seq<LinkView>,
    from: int,
    olds: Seq<EntryView>,
    m: int,
)
    requires
        0 <= m < renamed_of(snapshots, links, from, olds).len(),
    ensures
        renamed_of(snapshots, links, from, olds)[m].old != renamed_of(
            snapshots,
            links,
            from,
            olds,
        )[m].new,
    decreases olds.len(),
{
    let rest = renamed_of(snapshots, links, from, olds.drop_last());
    if m < rest.len() {
        lemma_renamed_differs(snapshots, links, from, olds.drop_last(), m);
    }
}

/// A ceiling movement is of one entry: some entry of the first endpoint, of the
/// same severity, match, unit and rules, continues at the record's address with
/// the record's values, and those differ in the record's direction.
pub proof fn lemma_ceiling_moves_within_its_unit(
    snapshots: Seq<SnapshotView>,
    links: Seq<LinkView>,
    from: int,
    olds: Seq<EntryView>,
    up: bool,
    m: int,
) -> (i: int)
    requires
        0 <= m < changed_of(snapshots, links, from, olds, up).len(),
    ensures
        0 <= i < olds.len(),
        ({
            let change = changed_of(snapshots, links, from, olds, up)[m];
            &&& same_entry(olds[i].address, change.address)
            &&& landing(snapshots, links, from, olds[i].address) == Some(change.address)
            &&& change.old_value == olds[i].value
            &&& change.new_value == value_at(snapshots.last().entries, change.address)
            &&& if up {
                change.old_value < change.new_value
            } else {
                change.old_value > change.new_value
            }
        }),
    decreases olds.len(),
{
    let rest = changed_of(snapshots, links, from, olds.drop_last(), up);
    if m < rest.len() {
        let i = lemma_ceiling_moves_within_its_unit(
            snapshots,
            links,
            from,
            olds.drop_last(),
            up,
            m,
        );
        assert(olds.drop_last()[i] == olds[i]);
        i
    } else {
        lemma_landing_keeps_identity(snapshots, links, from, olds.last().address);
        olds.len() - 1
    }
}

proof fn lemma_retired_holds(
    snapshots: Seq<SnapshotView>,
    links: Seq<LinkView>,
    from: int,
    olds: Seq<EntryView>,
    i: int,
)
    requires
        0 <= i < olds.len(),
        landing(snapshots, links, from, olds[i].address) is None,
    ensures
        retired_of(snapshots, links, from, olds).contains(
            CeilingView { address: olds[i].address, value: olds[i].value },
        ),
    decreases olds.len(),
{
    let all = retired_of(snapshots, links, from, olds);
    let rest = retired_of(snapshots, links, from, olds.drop_last());
    let record = CeilingView { address: olds[i].address, value: olds[i].value };
    if i < olds.len() - 1 {
        assert(olds.drop_last()[i] == olds[i]);
        lemma_retired_holds(snapshots, links, from, olds.drop_last(), i);
        let m = choose|m: int| 0 <= m < rest.len() && rest[m] == record;
        assert(all[m] == record);
    } else {
        assert(all[rest.len() as int] == record);
    }
}

proof fn lemma_added_holds(
    snapshots: Seq<SnapshotView>,
    links: Seq<LinkView>,
    from: int,
    news: Seq<EntryView>,
    i: int,
)
    requires
        0 <= i < news.len(),
        !is_continued(snapshots, links, from, snapshots[from].entries, news[i].address),
    ensures
        added_of(snapshots, links, from, news).contains(
            CeilingView { address: news[i].address, value: news[i].value },
        ),
    decreases news.len(),
{
    let all = added_of(snapshots, links, from, news);
    let rest = added_of(snapshots, links, from, news.drop_last());
    let record = CeilingView { address: news[i].address, value: news[i].value };
    if i < news.len() - 1 {
        assert(news.drop_last()[i] == news[i]);
        lemma_added_holds(snapshots, links, from, news.drop_last(), i);
        let m = choose|m: int| 0 <= m < rest.len() && rest[m] == record;
        assert(all[m] == record);
    } else {
        assert(all[rest.len() as int] == record);
    }
}

/// No entry is lost: each one of the first endpoint continues or is reported as
/// retired, and each one of the last endpoint continues one or is reported as
/// added.
pub proof fn lemma_every_entry_is_accounted_for(
    snapshots: Seq<SnapshotView>,
    links: Seq<LinkView>,
    from: int,
    i: int,
)
    ensures
        0 <= i < snapshots[from].entries.len() ==> landing(
            snapshots,
            links,
            from,
            snapshots[from].entries[i].address,
        ) is Some || history_of(snapshots, links, from).retired.contains(
            CeilingView {
                address: snapshots[from].entries[i].address,
                value: snapshots[from].entries[i].value,
            },
        ),
        0 <= i < snapshots.last().entries.len() ==> is_continued(
            snapshots,
            links,
            from,
            snapshots[from].entries,
            snapshots.last().entries[i].address,
        ) || history_of(snapshots, links, from).added.contains(
            CeilingView {
                address: snapshots.last().entries[i].address,
                value: snapshots.last().entries[i].value,
            },
        ),
{
    let olds = snapshots[from].entries;
    let news = snapshots.last().entries;
    if 0 <= i < olds.len() && landing(snapshots, links, from, olds[i].address) is None {
        lemma_retired_holds(snapshots, links, from, olds, i);
    }
    if 0 <= i < news.len() && !is_continued(snapshots, links, from, olds, news[i].address) {
        lemma_added_holds(snapshots, links, from, news, i);
    }
}

// ---------------------------------------------------------------------------
// One commit
// ---------------------------------------------------------------------------

/// No address occurs twice.
pub open spec fn one_entry_per_address(entries: Seq<EntryView>) -> bool {
    forall|i: int, j: int|
        #![trigger entries[i], entries[j]]
        0 <= i < j < entries.len() ==> entries[i].address != entries[j].address
}

proof fn lemma_stays(
    snapshots: Seq<SnapshotView>,
    links: Seq<LinkView>,
    a: AddressView,
)
    requires
        snapshots.len() > 0,
        has_address(snapshots.last().entries, a),
    ensures
        landing(snapshots, links, snapshots.len() - 1, a) == Some(a),
{
    let from = snapshots.len() - 1;
    assert(lands_with(snapshots, links, from, a, a, None));
    assert(lands(snapshots, links, from, a, a));
    assert forall|b: AddressView| #[trigger] lands(snapshots, links, from, a, b) implies b == a by {
        let kind = choose|kind: Option<MovementKind>|
            lands_with(snapshots, links, from, a, b, kind);
    }
}

proof fn lemma_nothing_moves(
    snapshots: Seq<SnapshotView>,
    links: Seq<LinkView>,
    n: int,
)
    requires
        snapshots.len() > 0,
        one_entry_per_address(snapshots.last().entries),
        0 <= n <= snapshots.last().entries.len(),
    ensures
        ({
            let from = snapshots.len() - 1;
            let some = snapshots.last().entries.take(n);
            &&& added_of(snapshots, links, from, some) == Seq::<CeilingView>::empty()
            &&& retired_of(snapshots, links, from, some) == Seq::<CeilingView>::empty()
            &&& changed_of(snapshots, links, from, some, true) == Seq::<ChangeView>::empty()
            &&& changed_of(snapshots, links, from, some, false) == Seq::<ChangeView>::empty()
            &&& renamed_of(snapshots, links, from, some) == Seq::<RenamedView>::empty()
        }),
    decreases n,
{
    let entries = snapshots.last().entries;
    if n > 0 {
        let some = entries.take(n);
        assert(some.drop_last() =~= entries.take(n - 1));
        lemma_nothing_moves(snapshots, links, n - 1);
        let entry = entries[n - 1];
        assert(has_address(entries, entry.address));
        lemma_stays(snapshots, links, entry.address);
        lemma_value_at(entries, entry.address, n - 1);
        assert(is_continued(
            snapshots,
            links,
            snapshots.len() - 1,
            entries,
            entry.address,
        ));
    }
}

/// A commit compared with itself shows no movement.
pub proof fn lemma_no_movement_within_a_commit(
    snapshots: Seq<SnapshotView>,
    links: Seq<LinkView>,
)
    requires
        snapshots.len() > 0,
        one_entry_per_address(snapshots.last().entries),
    ensures
        ({
            let h = history_of(snapshots, links, snapshots.len() - 1);
            &&& h.from == h.to
            &&& h.added.len() == 0
            &&& h.retired.len() == 0
            &&& h.raised.len() == 0
            &&& h.lowered.len() == 0
            &&& h.renamed.len() == 0
        }),
{
    let entries = snapshots.last().entries;
    lemma_nothing_moves(snapshots, links, entries.len() as int);
    assert(entries.take(entries.len() as int) =~= entries);
}

// ---------------------------------------------------------------------------
// Rename evidence
// ---------------------------------------------------------------------------

/// Moving one file leaves every other path where it is.
pub proof fn lemma_file_move_leaves_siblings(
    style: PathStyle,
    renames: Seq<RenameView>,
    path: Text,
    directories_only: bool,
)
    requires
        forall|i: int|
            #![trigger renames[i]]
            0 <= i < renames.len() ==> renames[i].kind == RenameKind::ExactFile && renames[i].old
                != path,
    ensures
        mapped_path(style, renames, path, directories_only) == (path, None::<MovementKind>),
    decreases renames.len(),
{
    if renames.len() > 0 {
        let rest = renames.drop_first();
        assert(renames[0].old != path);
        assert forall|i: int| #![trigger rest[i]] 0 <= i < rest.len() implies rest[i].kind
            == RenameKind::ExactFile && rest[i].old != path by {
            assert(rest[i] == renames[i + 1]);
        }
        lemma_file_move_leaves_siblings(style, rest, path, directories_only);
    }
}

/// Where only files moved, a glob stays where it is: similarity of what it
/// matches is no evidence.
pub proof fn lemma_glob_stays_without_directory(
    style: PathStyle,
    renames: Seq<RenameView>,
    path: Text,
)
    requires
        forall|i: int|
            #![trigger renames[i]]
            0 <= i < renames.len() ==> renames[i].kind == RenameKind::ExactFile,
    ensures
        mapped_path(style, renames, path, true) == (path, None::<MovementKind>),
    decreases renames.len(),
{
    if renames.len() > 0 {
        let rest = renames.drop_first();
        assert(renames[0].kind == RenameKind::ExactFile);
        assert forall|i: int| #![trigger rest[i]] 0 <= i < rest.len() implies rest[i].kind
            == RenameKind::ExactFile by {
            assert(rest[i] == renames[i + 1]);
        }
        lemma_glob_stays_without_directory(style, rest, path);
    }
}

/// A copy is no rename: its record adds nothing to the evidence.
pub proof fn lemma_copy_is_no_rename(fields: Seq<Text>)
    requires
        fields.len() >= 3,
        begins(fields[0], 'C'),
    ensures
        rename_records(fields) == rename_records(fields.skip(3)),
{
    if fields.len() == 3 {
        assert(fields.skip(3) =~= Seq::<Text>::empty());
    }
}

// ---------------------------------------------------------------------------
// Ages
// ---------------------------------------------------------------------------

/// An age is the elapsed seconds in whole days, rounded down.
pub proof fn lemma_age_is_rounded_down(first: int, to: int)
    requires
        is_elapsed(first, to),
    ensures
        0 <= days_between(first, to),
        days_between(first, to) * 86_400 <= to - first < (days_between(first, to) + 1) * 86_400,
{
}

/// Once a parent has no such state, nothing is inherited from the others.
proof fn lemma_parent_without_state<S: Traced>(
    snapshots: Seq<SnapshotView>,
    links: Seq<LinkView>,
    i: int,
    key: S::Key,
    p: int,
    n: int,
)
    requires
        0 <= p < n,
        inherited::<S>(snapshots, links, i, snapshots[i].parents[p], key) is None,
    ensures
        first_seen_of_parents::<S>(snapshots, links, i, key, n) is None,
    decreases n,
{
    if n - 1 > p {
        lemma_parent_without_state::<S>(snapshots, links, i, key, p, n - 1);
    }
}

/// An age starts again at a commit, a merge among them, that has a parent
/// without the state: a state that was absent for one commit is a new one.
pub proof fn lemma_age_restarts<S: Traced>(
    snapshots: Seq<SnapshotView>,
    links: Seq<LinkView>,
    i: int,
    key: S::Key,
    p: int,
)
    requires
        0 <= p < snapshots[i].parents.len(),
        inherited::<S>(snapshots, links, i, snapshots[i].parents[p], key) is None,
    ensures
        first_seen::<S>(snapshots, links, i, key) == i,
{
    lemma_parent_without_state::<S>(
        snapshots,
        links,
        i,
        key,
        p,
        snapshots[i].parents.len() as int,
    );
}

/// The names of the commits are distinct.
pub open spec fn distinct_commits(snapshots: Seq<SnapshotView>) -> bool {
    forall|i: int, j: int|
        #![trigger snapshots[i], snapshots[j]]
        0 <= i < j < snapshots.len() ==> snapshots[i].sha != snapshots[j].sha
}

proof fn lemma_place_of_itself(snapshots: Seq<SnapshotView>, i: int)
    requires
        distinct_commits(snapshots),
        0 <= i < snapshots.len(),
    ensures
        place_of(snapshots, snapshots[i].sha) == Some(i),
{
    lemma_place_of(snapshots, snapshots[i].sha);
    if let Some(j) = place_of(snapshots, snapshots[i].sha) {
        if j < i {
            assert(snapshots[i].sha != snapshots[j].sha);
        } else if i < j {
            assert(snapshots[i].sha != snapshots[j].sha);
        }
    } else {
        assert(snapshots[i].sha != snapshots[i].sha);
    }
}

proof fn lemma_latest_is_one(snapshots: Seq<SnapshotView>, places: Seq<int>, from: int)
    requires
        0 <= from,
    ensures
        latest_of(snapshots, places, from) matches Some(place) ==> places.contains(place),
    decreases places.len() - from,
{
    if from < places.len() {
        assert(places.contains(places[from]));
        lemma_latest_is_one(snapshots, places, from + 1);
    }
}

proof fn lemma_parents_descend<S: Traced>(
    snapshots: Seq<SnapshotView>,
    links: Seq<LinkView>,
    i: int,
    key: S::Key,
    n: int,
)
    requires
        distinct_commits(snapshots),
        0 <= i < snapshots.len(),
        n <= snapshots[i].parents.len(),
    ensures
        first_seen_of_parents::<S>(snapshots, links, i, key, n) matches Some(places)
            ==> forall|m: int|
            #![trigger places[m]]
            0 <= m < places.len() ==> 0 <= places[m] <= i && descends(
                snapshots,
                snapshots[places[m]].sha,
                snapshots[i].sha,
            ),
    decreases i, n,
{
    if n > 0 && first_seen_of_parents::<S>(snapshots, links, i, key, n) is Some {
        let places = first_seen_of_parents::<S>(snapshots, links, i, key, n).unwrap();
        let parent = snapshots[i].parents[n - 1];
        lemma_parents_descend::<S>(snapshots, links, i, key, n - 1);
        let (k, previous) = inherited::<S>(snapshots, links, i, parent, key).unwrap();
        lemma_first_seen_is_an_ancestor::<S>(snapshots, links, k, previous);
        lemma_place_of(snapshots.take(i), parent);
        assert(snapshots.take(i)[k] == snapshots[k]);
        assert(snapshots[k].sha == parent);
        lemma_place_of_itself(snapshots, i);
        assert(snapshots[i].parents.contains(parent));
        let since = first_seen::<S>(snapshots, links, k, previous);
        lemma_descends_parent(snapshots, snapshots[since].sha, parent, snapshots[i].sha);
        let earlier = first_seen_of_parents::<S>(snapshots, links, i, key, n - 1).unwrap();
        assert(places == earlier.push(since));
    }
}

/// A state first appeared at the commit itself or at one of its ancestors.
pub proof fn lemma_first_seen_is_an_ancestor<S: Traced>(
    snapshots: Seq<SnapshotView>,
    links: Seq<LinkView>,
    i: int,
    key: S::Key,
)
    requires
        distinct_commits(snapshots),
        0 <= i < snapshots.len(),
    ensures
        0 <= first_seen::<S>(snapshots, links, i, key) <= i,
        descends(
            snapshots,
            snapshots[first_seen::<S>(snapshots, links, i, key)].sha,
            snapshots[i].sha,
        ),
    decreases i, snapshots[i].parents.len() + 1,
{
    let n = snapshots[i].parents.len() as int;
    lemma_parents_descend::<S>(snapshots, links, i, key, n);
    lemma_descends_self(snapshots, snapshots[i].sha);
    if let Some(places) = first_seen_of_parents::<S>(snapshots, links, i, key, n) {
        lemma_latest_is_one(snapshots, places, 0);
        if let Some(place) = latest_of(snapshots, places, 0) {
            let m = choose|m: int| 0 <= m < places.len() && places[m] == place;
            assert(places[m] == place);
        }
    }
}

/// With one parent that has the state, the age goes on.
pub proof fn lemma_age_continues<S: Traced>(
    snapshots: Seq<SnapshotView>,
    links: Seq<LinkView>,
    i: int,
    key: S::Key,
    k: int,
    previous: S::Key,
)
    requires
        snapshots[i].parents.len() == 1,
        inherited::<S>(snapshots, links, i, snapshots[i].parents[0], key) == Some((k, previous)),
        0 <= k < i,
    ensures
        first_seen::<S>(snapshots, links, i, key) == first_seen::<S>(
            snapshots,
            links,
            k,
            previous,
        ),
{
    let since = first_seen::<S>(snapshots, links, k, previous);
    reveal_with_fuel(first_seen_of_parents, 3);
    assert(first_seen_of_parents::<S>(snapshots, links, i, key, 0) == Some(Seq::<int>::empty()));
    let places = seq![since];
    assert(Seq::<int>::empty().push(since) =~= places);
    assert(first_seen_of_parents::<S>(snapshots, links, i, key, 1) == Some(places));
    lemma_descends_self(snapshots, snapshots[since].sha);
    assert(is_latest(snapshots, places, places[0]));
    assert(latest_of(snapshots, places, 0) == Some(since));
}

/// The commits have the same names and parents, and their entries the same
/// addresses and kinds; ceilings may differ.
pub open spec fn same_but_ceilings(a: Seq<SnapshotView>, b: Seq<SnapshotView>) -> bool {
    &&& a.len() == b.len()
    &&& forall|i: int|
        #![trigger a[i]]
        #![trigger b[i]]
        0 <= i < a.len() ==> {
            &&& a[i].sha == b[i].sha
            &&& a[i].parents == b[i].parents
            &&& same_entries(a[i].entries, b[i].entries)
        }
}

pub open spec fn same_entries(a: Seq<EntryView>, b: Seq<EntryView>) -> bool {
    &&& a.len() == b.len()
    &&& forall|j: int|
        #![trigger a[j]]
        #![trigger b[j]]
        0 <= j < a.len() ==> a[j].address == b[j].address && a[j].kind == b[j].kind
}

proof fn lemma_places_alike(a: Seq<SnapshotView>, b: Seq<SnapshotView>, sha: Text)
    requires
        same_but_ceilings(a, b),
    ensures
        place_of(a, sha) == place_of(b, sha),
    decreases a.len(),
{
    if a.len() > 0 {
        assert(a[a.len() - 1].sha == b[b.len() - 1].sha);
        let x = a.drop_last();
        let y = b.drop_last();
        assert forall|i: int|
            #![trigger x[i]]
            #![trigger y[i]]
            0 <= i < x.len() implies x[i].sha == y[i].sha && x[i].parents == y[i].parents
            && same_entries(x[i].entries, y[i].entries) by {
            assert(x[i] == a[i] && y[i] == b[i]);
        }
        lemma_places_alike(x, y, sha);
    }
}

proof fn lemma_descends_alike(
    a: Seq<SnapshotView>,
    b: Seq<SnapshotView>,
    ancestor: Text,
    descendant: Text,
)
    requires
        same_but_ceilings(a, b),
        descends(a, ancestor, descendant),
    ensures
        descends(b, ancestor, descendant),
{
    let path = choose|path: Seq<Text>| #[trigger]
        is_walk(a, path) && path[0] == descendant && path.last() == ancestor;
    assert forall|m: int| #![trigger path[m]] 0 < m < path.len() implies is_parent(
        b,
        path[m - 1],
        path[m],
    ) by {
        assert(is_parent(a, path[m - 1], path[m]));
        lemma_places_alike(a, b, path[m - 1]);
        lemma_place_of(a, path[m - 1]);
        let i = place_of(a, path[m - 1]).unwrap();
        assert(a[i].parents == b[i].parents);
    }
    assert(is_walk(b, path));
}

proof fn lemma_same_but_ceilings_turns(a: Seq<SnapshotView>, b: Seq<SnapshotView>)
    requires
        same_but_ceilings(a, b),
    ensures
        same_but_ceilings(b, a),
{
    assert forall|i: int|
        #![trigger b[i]]
        #![trigger a[i]]
        0 <= i < b.len() implies b[i].sha == a[i].sha && b[i].parents == a[i].parents
        && same_entries(b[i].entries, a[i].entries) by {
        let x = a[i].entries;
        let y = b[i].entries;
        assert(same_entries(x, y));
        assert forall|j: int| #![trigger y[j]] #![trigger x[j]] 0 <= j < y.len() implies y[j].address
            == x[j].address && y[j].kind == x[j].kind by {}
    }
}

proof fn lemma_latest_alike(
    a: Seq<SnapshotView>,
    b: Seq<SnapshotView>,
    places: Seq<int>,
    from: int,
)
    requires
        same_but_ceilings(a, b),
        0 <= from,
        forall|m: int| #![trigger places[m]] 0 <= m < places.len() ==> 0 <= places[m] < a.len(),
    ensures
        latest_of(a, places, from) == latest_of(b, places, from),
    decreases places.len() - from,
{
    if from < places.len() {
        let place = places[from];
        lemma_same_but_ceilings_turns(a, b);
        assert(a[place].sha == b[place].sha);
        if is_latest(a, places, place) {
            assert forall|k: int| #![trigger places[k]] 0 <= k < places.len() implies descends(
                b,
                b[places[k]].sha,
                b[place].sha,
            ) by {
                assert(a[places[k]].sha == b[places[k]].sha);
                lemma_descends_alike(a, b, a[places[k]].sha, a[place].sha);
            }
        }
        if is_latest(b, places, place) {
            assert forall|k: int| #![trigger places[k]] 0 <= k < places.len() implies descends(
                a,
                a[places[k]].sha,
                a[place].sha,
            ) by {
                assert(a[places[k]].sha == b[places[k]].sha);
                lemma_descends_alike(b, a, b[places[k]].sha, b[place].sha);
            }
        }
        lemma_latest_alike(a, b, places, from + 1);
    }
}

proof fn lemma_states_alike(a: Seq<EntryView>, b: Seq<EntryView>, key: AddressView)
    requires
        same_entries(a, b),
    ensures
        has_state::<EntryState>(a, key) ==> has_state::<EntryState>(b, key),
{
    if has_state::<EntryState>(a, key) {
        let j = choose|j: int|
            #![trigger a[j]]
            0 <= j < a.len() && EntryState::has_age(a[j]) && EntryState::key(a[j]) == key;
        assert(b[j].address == a[j].address && b[j].kind == a[j].kind);
        assert(EntryState::has_age(b[j]) && EntryState::key(b[j]) == key);
    }
}

proof fn lemma_predecessor_alike(
    a: Seq<EntryView>,
    b: Seq<EntryView>,
    known_a: Seq<EntryView>,
    known_b: Seq<EntryView>,
    t: TransitionView,
    key: AddressView,
)
    requires
        same_entries(a, b),
        same_entries(known_a, known_b),
    ensures
        predecessor::<EntryState>(a, known_a, t, key) == predecessor::<EntryState>(
            b,
            known_b,
            t,
            key,
        ),
    decreases a.len(),
{
    if a.len() > 0 {
        assert(a[0].address == b[0].address && a[0].kind == b[0].kind);
        assert(same_entries(known_b, known_a)) by {
            assert forall|j: int|
                #![trigger known_b[j]]
                #![trigger known_a[j]]
                0 <= j < known_b.len() implies known_b[j].address == known_a[j].address
                && known_b[j].kind == known_a[j].kind by {}
        }
        lemma_states_alike(known_a, known_b, a[0].address);
        lemma_states_alike(known_b, known_a, a[0].address);
        let x = a.drop_first();
        let y = b.drop_first();
        assert forall|j: int| #![trigger x[j]] #![trigger y[j]] 0 <= j < x.len() implies x[j].address
            == y[j].address && x[j].kind == y[j].kind by {
            assert(x[j] == a[j + 1] && y[j] == b[j + 1]);
        }
        lemma_predecessor_alike(x, y, known_a, known_b, t, key);
    }
}

proof fn lemma_inherited_alike(
    a: Seq<SnapshotView>,
    b: Seq<SnapshotView>,
    links: Seq<LinkView>,
    i: int,
    parent: Text,
    key: AddressView,
)
    requires
        same_but_ceilings(a, b),
        0 <= i < a.len(),
    ensures
        inherited::<EntryState>(a, links, i, parent, key) == inherited::<EntryState>(
            b,
            links,
            i,
            parent,
            key,
        ),
        inherited::<EntryState>(a, links, i, parent, key) matches Some((k, _)) ==> 0 <= k < i,
{
    let x = a.take(i);
    let y = b.take(i);
    assert forall|j: int| #![trigger x[j]] #![trigger y[j]] 0 <= j < x.len() implies x[j].sha
        == y[j].sha && x[j].parents == y[j].parents && same_entries(x[j].entries, y[j].entries) by {
        assert(x[j] == a[j] && y[j] == b[j]);
    }
    lemma_places_alike(a, b, parent);
    lemma_places_alike(x, y, parent);
    lemma_place_of(a, parent);
    lemma_place_of(x, parent);
    assert(a[i].sha == b[i].sha);
    if let (Some(named), Some(earlier), Some(t)) = (
        place_of(a, parent),
        place_of(x, parent),
        evidence_for(links, parent, a[i].sha),
    ) {
        assert(same_entries(a[named].entries, b[named].entries));
        assert(same_entries(a[earlier].entries, b[earlier].entries));
        lemma_predecessor_alike(
            a[named].entries,
            b[named].entries,
            a[earlier].entries,
            b[earlier].entries,
            t,
            key,
        );
    }
}

proof fn lemma_parents_alike(
    a: Seq<SnapshotView>,
    b: Seq<SnapshotView>,
    links: Seq<LinkView>,
    i: int,
    key: AddressView,
    n: int,
)
    requires
        same_but_ceilings(a, b),
        0 <= i < a.len(),
        n <= a[i].parents.len(),
    ensures
        first_seen_of_parents::<EntryState>(a, links, i, key, n) == first_seen_of_parents::<
            EntryState,
        >(b, links, i, key, n),
        first_seen_of_parents::<EntryState>(a, links, i, key, n) matches Some(places)
            ==> forall|m: int|
            #![trigger places[m]]
            0 <= m < places.len() ==> 0 <= places[m] <= i,
    decreases i, n,
{
    if n > 0 {
        lemma_parents_alike(a, b, links, i, key, n - 1);
        assert(a[i].parents == b[i].parents);
        let parent = a[i].parents[n - 1];
        lemma_inherited_alike(a, b, links, i, parent, key);
        if let Some((k, previous)) = inherited::<EntryState>(a, links, i, parent, key) {
            lemma_ceiling_does_not_reset_age(a, b, links, k, previous);
        }
    }
}

/// Moving a ceiling does not reset the age of a deferred entry.
pub proof fn lemma_ceiling_does_not_reset_age(
    a: Seq<SnapshotView>,
    b: Seq<SnapshotView>,
    links: Seq<LinkView>,
    i: int,
    key: AddressView,
)
    requires
        same_but_ceilings(a, b),
        0 <= i < a.len(),
    ensures
        first_seen::<EntryState>(a, links, i, key) == first_seen::<EntryState>(b, links, i, key),
        0 <= first_seen::<EntryState>(a, links, i, key) <= i,
    decreases i, a[i].parents.len() + 1,
{
    let n = a[i].parents.len() as int;
    assert(a[i].parents == b[i].parents);
    lemma_parents_alike(a, b, links, i, key, n);
    if let Some(places) = first_seen_of_parents::<EntryState>(a, links, i, key, n) {
        lemma_latest_alike(a, b, places, 0);
        lemma_latest_is_one(a, places, 0);
    }
}

// ---------------------------------------------------------------------------
// The report
// ---------------------------------------------------------------------------

/// The counts of a report carry the names of its arrays, in their order, and
/// their lengths.
pub proof fn lemma_counts_match_the_arrays(h: HistoryView, i: int)
    requires
        0 <= i < 7,
    ensures
        ({
            let fields = history_json(h)->Object_0;
            let counts = counts_view(h)->Object_0;
            &&& fields.len() == 10 && counts.len() == 7
            &&& fields[2] == ("counts"@, counts_view(h))
            &&& counts[i].0 == fields[3 + i].0
            &&& fields[3 + i].1 is Array
            &&& counts[i].1 == JsonView::UInt(fields[3 + i].1->Array_0.len() as int)
        }),
{
}

// ---------------------------------------------------------------------------
// Findings
// ---------------------------------------------------------------------------

/// Every finding is over its limit.
pub open spec fn all_over(findings: Seq<FindingView>) -> bool {
    forall|i: int|
        #![trigger findings[i]]
        0 <= i < findings.len() ==> findings[i].actual > findings[i].limit
}

proof fn lemma_hits_are_over(path: Text, judged: Seq<Judged>)
    ensures
        hits_findings(path, judged) matches Ok(found) ==> all_over(found),
    decreases judged.len(),
{
    if judged.len() > 0 {
        lemma_hits_are_over(path, judged.drop_last());
    }
}

/// A finding of a scan is strictly over its soft limit: equality passes.
pub proof fn lemma_findings_are_over_soft(tokens: bool, files: Seq<Scanned>)
    ensures
        scan_findings(tokens, files) matches Ok(found) ==> all_over(found),
    decreases files.len(),
{
    if files.len() > 0 {
        lemma_findings_are_over_soft(tokens, files.drop_last());
        if let FileOutcome::Judged(judged) = files.last().outcome {
            lemma_hits_are_over(files.last().path@, judged@);
        }
    }
}

} // verus!
