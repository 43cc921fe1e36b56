//! What a report says of two committed states, said of the entries and findings
//! of the commits and of the evidence between them.

use vstd::prelude::*;

use super::age_laws::{comes_from, lemma_last_link_tells, lemma_place_is_last};
use super::ages::first_seen;
use super::compare::{
    added_of, appearances, changed_of, deferred_of, finding_age, history_of, is_boundary_error,
    is_comparable, is_comparison_error, is_continued, is_evidence, is_proven, is_report,
    is_sorted_report, is_split, kind_of_move, landing, lands, lands_with, lemma_value_at,
    none_split, renamed_of, retired_of, value_at,
};
use super::data::{
    address_order, finding_order, AddressView, CeilingView, ChangeView, DeferredAgeView,
    EntryState, EntryView, FindingAddressView, FindingAgeView, FindingState, FindingView,
    MovementKind, RenamedView, SnapshotView,
};
use super::error::{failure, failure_at, HistoryErrorView};
use super::identity::{mapped_address, TransitionView};
use super::identity_laws::{entry_moves, lemma_entry_goes_with_its_paths};
use super::laws::distinct_commits;
use super::movement::{goes_to, is_step, place_since, strength, MappingView};
use super::report::{History, HistoryView};
use super::transitions::{ambiguous_at, evidence_for, lemma_place_of, LinkView};
use crate::exceptions::Kind;
use crate::order::{is_stable_sort, list_order, text_order, Order, Ranked};
use crate::text::Text;
use crate::text_laws::lemma_same_text;

verus! {

// ---------------------------------------------------------------------------
// From commit to commit
// ---------------------------------------------------------------------------

/// The evidence of two steps, or of two parts of one, taken together: a moved
/// directory tells more than a moved file, and a moved file more than nothing.
pub open spec fn is_together(
    first: Option<MovementKind>,
    second: Option<MovementKind>,
    both: Option<MovementKind>,
) -> bool {
    if first == Some(MovementKind::Directory) || second == Some(MovementKind::Directory) {
        both == Some(MovementKind::Directory)
    } else if first == Some(MovementKind::ExactFile) || second == Some(MovementKind::ExactFile) {
        both == Some(MovementKind::ExactFile)
    } else {
        both is None
    }
}

/// At the first endpoint an entry stands where it stands, on no evidence.
pub proof fn lemma_entry_starts_where_it_stands(
    snapshots: Seq<SnapshotView>,
    links: Seq<LinkView>,
    from: int,
    a: AddressView,
    b: AddressView,
    kind: Option<MovementKind>,
)
    ensures
        goes_to(snapshots, links, from, a, from, MappingView { address: b, kind }) <==> b == a
            && kind is None,
{
}

/// An entry that came to a commit goes on to its children, from each of them to
/// where the evidence takes it. The evidence adds up.
pub proof fn lemma_entry_goes_on(
    snapshots: Seq<SnapshotView>,
    links: Seq<LinkView>,
    from: int,
    a: AddressView,
    i: int,
    p: int,
    k: int,
    t: TransitionView,
    here: AddressView,
    so_far: Option<MovementKind>,
    there: AddressView,
    step: Option<MovementKind>,
    both: Option<MovementKind>,
)
    requires
        0 <= from <= k,
        comes_from(snapshots, links, i, p, k, t),
        goes_to(snapshots, links, from, a, k, MappingView { address: here, kind: so_far }),
        entry_moves(t, here, there, step),
        is_together(so_far, step, both),
    ensures
        goes_to(snapshots, links, from, a, i, MappingView { address: there, kind: both }),
{
    let previous = MappingView { address: here, kind: so_far };
    let found = MappingView { address: there, kind: both };
    lemma_entry_goes_with_its_paths(t, here, there, step);
    lemma_last_link_tells(links, snapshots[k].sha, snapshots[i].sha, t);
    lemma_place_is_last(snapshots, i, k);
    assert(place_since(snapshots, from, i, snapshots[i].parents[p]) == Some(k));
    assert(is_step(snapshots, links, from, i, p, previous, found));
}

/// An entry comes to a later commit only from one of its parents that is not
/// before the first endpoint, and only as the evidence between them takes it.
pub proof fn lemma_entry_comes_from_a_parent(
    snapshots: Seq<SnapshotView>,
    links: Seq<LinkView>,
    from: int,
    a: AddressView,
    i: int,
    there: AddressView,
    both: Option<MovementKind>,
) -> (r: (int, int, TransitionView, AddressView, Option<MovementKind>, Option<MovementKind>))
    requires
        distinct_commits(snapshots),
        0 <= from < i < snapshots.len(),
        goes_to(snapshots, links, from, a, i, MappingView { address: there, kind: both }),
    ensures
        ({
            let (p, k, t, here, so_far, step) = r;
            &&& from <= k
            &&& comes_from(snapshots, links, i, p, k, t)
            &&& goes_to(snapshots, links, from, a, k, MappingView { address: here, kind: so_far })
            &&& entry_moves(t, here, there, step)
            &&& is_together(so_far, step, both)
        }),
{
    let found = MappingView { address: there, kind: both };
    let (p, previous) = choose|p: int, previous: MappingView|
        {
            &&& #[trigger] is_step(snapshots, links, from, i, p, previous, found)
            &&& 0 <= place_since(snapshots, from, i, snapshots[i].parents[p]).unwrap() < i
            &&& goes_to(
                snapshots,
                links,
                from,
                a,
                place_since(snapshots, from, i, snapshots[i].parents[p]).unwrap(),
                previous,
            )
        };
    let parent = snapshots[i].parents[p];
    let k = place_since(snapshots, from, i, parent).unwrap();
    let t = evidence_for(links, parent, snapshots[i].sha).unwrap();
    lemma_place_of(snapshots.take(i), parent);
    assert(snapshots.take(i)[k] == snapshots[k]);
    lemma_last_link_tells(links, parent, snapshots[i].sha, t);
    let step = mapped_address(t, previous.address).1;
    lemma_entry_goes_with_its_paths(t, previous.address, there, step);
    (p, k, t, previous.address, previous.kind, step)
}

// ---------------------------------------------------------------------------
// The last endpoint
// ---------------------------------------------------------------------------

/// The entry at `a` of the first endpoint comes to `b` at the last one, on the
/// evidence `kind`, and an entry stands there.
pub open spec fn arrives(
    snapshots: Seq<SnapshotView>,
    links: Seq<LinkView>,
    from: int,
    a: AddressView,
    b: AddressView,
    kind: Option<MovementKind>,
) -> bool {
    &&& goes_to(
        snapshots,
        links,
        from,
        a,
        snapshots.len() - 1,
        MappingView { address: b, kind },
    )
    &&& exists|j: int|
        #![trigger snapshots.last().entries[j]]
        0 <= j < snapshots.last().entries.len() && snapshots.last().entries[j].address == b
}

/// The entry at `a` continues at `b`, and nowhere else.
pub open spec fn continues(
    snapshots: Seq<SnapshotView>,
    links: Seq<LinkView>,
    from: int,
    a: AddressView,
    b: AddressView,
) -> bool {
    &&& exists|kind: Option<MovementKind>| #[trigger] arrives(snapshots, links, from, a, b, kind)
    &&& forall|c: AddressView, kind: Option<MovementKind>| #[trigger]
        arrives(snapshots, links, from, a, c, kind) ==> c == b
}

/// The entry at `a` continues nowhere.
pub open spec fn ends(
    snapshots: Seq<SnapshotView>,
    links: Seq<LinkView>,
    from: int,
    a: AddressView,
) -> bool {
    forall|c: AddressView, kind: Option<MovementKind>| !#[trigger]
        arrives(snapshots, links, from, a, c, kind)
}

/// The entry `j` is the first of the list with its address.
pub open spec fn is_first_at(entries: Seq<EntryView>, j: int) -> bool {
    &&& 0 <= j < entries.len()
    &&& forall|m: int|
        #![trigger entries[m]]
        0 <= m < j ==> entries[m].address != entries[j].address
}

proof fn lemma_arrives_lands(
    snapshots: Seq<SnapshotView>,
    links: Seq<LinkView>,
    from: int,
    a: AddressView,
    b: AddressView,
    kind: Option<MovementKind>,
)
    ensures
        arrives(snapshots, links, from, a, b, kind) <==> lands_with(
            snapshots,
            links,
            from,
            a,
            b,
            kind,
        ),
{
}

proof fn lemma_continues_lands(
    snapshots: Seq<SnapshotView>,
    links: Seq<LinkView>,
    from: int,
    a: AddressView,
    b: AddressView,
)
    requires
        continues(snapshots, links, from, a, b),
    ensures
        landing(snapshots, links, from, a) == Some(b),
{
    let kind = choose|kind: Option<MovementKind>| #[trigger]
        arrives(snapshots, links, from, a, b, kind);
    lemma_arrives_lands(snapshots, links, from, a, b, kind);
    assert(lands(snapshots, links, from, a, b));
    assert forall|c: AddressView| #[trigger] lands(snapshots, links, from, a, c) implies c == b by {
        let other = choose|other: Option<MovementKind>|
            lands_with(snapshots, links, from, a, c, other);
        lemma_arrives_lands(snapshots, links, from, a, c, other);
        assert(arrives(snapshots, links, from, a, c, other));
    }
}

proof fn lemma_ends_nowhere(
    snapshots: Seq<SnapshotView>,
    links: Seq<LinkView>,
    from: int,
    a: AddressView,
)
    ensures
        ends(snapshots, links, from, a) <==> landing(snapshots, links, from, a) is None,
{
    if ends(snapshots, links, from, a) {
        assert forall|c: AddressView| !#[trigger] lands(snapshots, links, from, a, c) by {
            if lands(snapshots, links, from, a, c) {
                let kind = choose|kind: Option<MovementKind>|
                    lands_with(snapshots, links, from, a, c, kind);
                lemma_arrives_lands(snapshots, links, from, a, c, kind);
                assert(arrives(snapshots, links, from, a, c, kind));
            }
        }
    }
    if landing(snapshots, links, from, a) is None {
        assert forall|c: AddressView, kind: Option<MovementKind>| !#[trigger] arrives(
            snapshots,
            links,
            from,
            a,
            c,
            kind,
        ) by {
            if arrives(snapshots, links, from, a, c, kind) {
                lemma_arrives_lands(snapshots, links, from, a, c, kind);
                assert(lands(snapshots, links, from, a, c));
            }
        }
    }
}

proof fn lemma_landing_arrives(
    snapshots: Seq<SnapshotView>,
    links: Seq<LinkView>,
    from: int,
    a: AddressView,
    b: AddressView,
)
    requires
        landing(snapshots, links, from, a) == Some(b),
    ensures
        exists|kind: Option<MovementKind>| #[trigger]
            arrives(snapshots, links, from, a, b, kind),
{
    assert(lands(snapshots, links, from, a, b));
    let kind = choose|kind: Option<MovementKind>| lands_with(snapshots, links, from, a, b, kind);
    lemma_arrives_lands(snapshots, links, from, a, b, kind);
    assert(arrives(snapshots, links, from, a, b, kind));
}

/// The comparison is refused for entries exactly when one of the first endpoint
/// comes to two different entries of the last one.
pub proof fn lemma_split_is_two_arrivals(
    snapshots: Seq<SnapshotView>,
    links: Seq<LinkView>,
    from: int,
    a: AddressView,
)
    ensures
        is_split(snapshots, links, from, a) <==> exists|
            b: AddressView,
            c: AddressView,
            kind: Option<MovementKind>,
            other: Option<MovementKind>,
        | #[trigger]
            arrives(snapshots, links, from, a, b, kind) && #[trigger] arrives(
                snapshots,
                links,
                from,
                a,
                c,
                other,
            ) && b != c,
{
    if is_split(snapshots, links, from, a) {
        let (b, c) = choose|b: AddressView, c: AddressView| #[trigger]
            lands(snapshots, links, from, a, b) && #[trigger] lands(snapshots, links, from, a, c)
                && b != c;
        let kind = choose|kind: Option<MovementKind>|
            lands_with(snapshots, links, from, a, b, kind);
        let other = choose|other: Option<MovementKind>|
            lands_with(snapshots, links, from, a, c, other);
        lemma_arrives_lands(snapshots, links, from, a, b, kind);
        lemma_arrives_lands(snapshots, links, from, a, c, other);
        assert(arrives(snapshots, links, from, a, b, kind));
        assert(arrives(snapshots, links, from, a, c, other));
    }
    if exists|
        b: AddressView,
        c: AddressView,
        kind: Option<MovementKind>,
        other: Option<MovementKind>,
    | #[trigger]
        arrives(snapshots, links, from, a, b, kind) && #[trigger] arrives(
            snapshots,
            links,
            from,
            a,
            c,
            other,
        ) && b != c {
        let (b, c, kind, other) = choose|
            b: AddressView,
            c: AddressView,
            kind: Option<MovementKind>,
            other: Option<MovementKind>,
        | #[trigger]
            arrives(snapshots, links, from, a, b, kind) && #[trigger] arrives(
                snapshots,
                links,
                from,
                a,
                c,
                other,
            ) && b != c;
        lemma_arrives_lands(snapshots, links, from, a, b, kind);
        lemma_arrives_lands(snapshots, links, from, a, c, other);
        assert(lands(snapshots, links, from, a, b));
        assert(lands(snapshots, links, from, a, c));
    }
}

proof fn lemma_kind_of_a_move(
    snapshots: Seq<SnapshotView>,
    links: Seq<LinkView>,
    from: int,
    a: AddressView,
    b: AddressView,
    kind: Option<MovementKind>,
)
    requires
        arrives(snapshots, links, from, a, b, kind),
    ensures
        kind_of_move(snapshots, links, from, a, b) == MovementKind::Directory <==> arrives(
            snapshots,
            links,
            from,
            a,
            b,
            Some(MovementKind::Directory),
        ),
{
    let none = None::<MovementKind>;
    let file = Some(MovementKind::ExactFile);
    let directory = Some(MovementKind::Directory);
    lemma_arrives_lands(snapshots, links, from, a, b, kind);
    lemma_arrives_lands(snapshots, links, from, a, b, directory);
    let best = if lands_with(snapshots, links, from, a, b, directory) {
        directory
    } else if lands_with(snapshots, links, from, a, b, file) {
        file
    } else {
        none
    };
    assert forall|other: Option<MovementKind>| #[trigger]
        lands_with(snapshots, links, from, a, b, other) implies strength(other)
        <= strength(best) by {
        assert(other == none || other == file || other == directory);
    }
    assert(kind == none || kind == file || kind == directory);
    assert(is_evidence(snapshots, links, from, a, b, best));
    let chosen = choose|kind: Option<MovementKind>|
        is_evidence(snapshots, links, from, a, b, kind);
    assert(is_evidence(snapshots, links, from, a, b, chosen));
    assert(chosen == best);
}

// ---------------------------------------------------------------------------
// The records of a comparison
// ---------------------------------------------------------------------------

proof fn lemma_changed_holds(
    snapshots: Seq<SnapshotView>,
    links: Seq<LinkView>,
    from: int,
    olds: Seq<EntryView>,
    up: bool,
    i: int,
    b: AddressView,
)
    requires
        0 <= i < olds.len(),
        landing(snapshots, links, from, olds[i].address) == Some(b),
        up ==> olds[i].value < value_at(snapshots.last().entries, b),
        !up ==> olds[i].value > value_at(snapshots.last().entries, b),
    ensures
        changed_of(snapshots, links, from, olds, up).contains(
            ChangeView {
                address: b,
                old_value: olds[i].value,
                new_value: value_at(snapshots.last().entries, b),
            },
        ),
    decreases olds.len(),
{
    let all = changed_of(snapshots, links, from, olds, up);
    let rest = changed_of(snapshots, links, from, olds.drop_last(), up);
    let record = ChangeView {
        address: b,
        old_value: olds[i].value,
        new_value: value_at(snapshots.last().entries, b),
    };
    if i < olds.len() - 1 {
        assert(olds.drop_last()[i] == olds[i]);
        lemma_changed_holds(snapshots, links, from, olds.drop_last(), up, i, b);
        let m = choose|m: int| 0 <= m < rest.len() && rest[m] == record;
        assert(all[m] == record);
    } else {
        assert(all[rest.len() as int] == record);
    }
}

proof fn lemma_changed_comes(
    snapshots: Seq<SnapshotView>,
    links: Seq<LinkView>,
    from: int,
    olds: Seq<EntryView>,
    up: bool,
    record: ChangeView,
) -> (i: int)
    requires
        changed_of(snapshots, links, from, olds, up).contains(record),
    ensures
        0 <= i < olds.len(),
        landing(snapshots, links, from, olds[i].address) == Some(record.address),
        record.old_value == olds[i].value,
        record.new_value == value_at(snapshots.last().entries, record.address),
        up ==> record.old_value < record.new_value,
        !up ==> record.old_value > record.new_value,
    decreases olds.len(),
{
    let all = changed_of(snapshots, links, from, olds, up);
    let rest = changed_of(snapshots, links, from, olds.drop_last(), up);
    let m = choose|m: int| 0 <= m < all.len() && all[m] == record;
    if m < rest.len() {
        assert(rest[m] == record);
        let i = lemma_changed_comes(snapshots, links, from, olds.drop_last(), up, record);
        assert(olds.drop_last()[i] == olds[i]);
        i
    } else {
        olds.len() - 1
    }
}

proof fn lemma_renamed_holds(
    snapshots: Seq<SnapshotView>,
    links: Seq<LinkView>,
    from: int,
    olds: Seq<EntryView>,
    i: int,
    b: AddressView,
)
    requires
        0 <= i < olds.len(),
        landing(snapshots, links, from, olds[i].address) == Some(b),
        olds[i].address != b,
    ensures
        renamed_of(snapshots, links, from, olds).contains(
            RenamedView {
                kind: kind_of_move(snapshots, links, from, olds[i].address, b),
                old: olds[i].address,
                new: b,
            },
        ),
    decreases olds.len(),
{
    let all = renamed_of(snapshots, links, from, olds);
    let rest = renamed_of(snapshots, links, from, olds.drop_last());
    let record = RenamedView {
        kind: kind_of_move(snapshots, links, from, olds[i].address, b),
        old: olds[i].address,
        new: b,
    };
    if i < olds.len() - 1 {
        assert(olds.drop_last()[i] == olds[i]);
        lemma_renamed_holds(snapshots, links, from, olds.drop_last(), i, b);
        let m = choose|m: int| 0 <= m < rest.len() && rest[m] == record;
        assert(all[m] == record);
    } else {
        assert(all[rest.len() as int] == record);
    }
}

proof fn lemma_renamed_comes(
    snapshots: Seq<SnapshotView>,
    links: Seq<LinkView>,
    from: int,
    olds: Seq<EntryView>,
    record: RenamedView,
) -> (i: int)
    requires
        renamed_of(snapshots, links, from, olds).contains(record),
    ensures
        0 <= i < olds.len(),
        olds[i].address == record.old,
        landing(snapshots, links, from, record.old) == Some(record.new),
        record.old != record.new,
        record.kind == kind_of_move(snapshots, links, from, record.old, record.new),
    decreases olds.len(),
{
    let all = renamed_of(snapshots, links, from, olds);
    let rest = renamed_of(snapshots, links, from, olds.drop_last());
    let m = choose|m: int| 0 <= m < all.len() && all[m] == record;
    if m < rest.len() {
        assert(rest[m] == record);
        let i = lemma_renamed_comes(snapshots, links, from, olds.drop_last(), record);
        assert(olds.drop_last()[i] == olds[i]);
        i
    } else {
        olds.len() - 1
    }
}

proof fn lemma_retired_iff(
    snapshots: Seq<SnapshotView>,
    links: Seq<LinkView>,
    from: int,
    olds: Seq<EntryView>,
    record: CeilingView,
)
    ensures
        retired_of(snapshots, links, from, olds).contains(record) <==> exists|i: int|
            #![trigger olds[i]]
            0 <= i < olds.len() && olds[i].address == record.address && olds[i].value
                == record.value && landing(snapshots, links, from, record.address) is None,
    decreases olds.len(),
{
    if olds.len() > 0 {
        let all = retired_of(snapshots, links, from, olds);
        let head = olds.drop_last();
        let rest = retired_of(snapshots, links, from, head);
        let last = olds.len() - 1;
        lemma_retired_iff(snapshots, links, from, head, record);
        assert(olds[last] == olds.last());
        assert forall|i: int| #![trigger olds[i]] 0 <= i < last implies olds[i] == head[i] by {}
        if all.contains(record) {
            let m = choose|m: int| 0 <= m < all.len() && all[m] == record;
            if m < rest.len() {
                assert(rest[m] == record);
                let i = choose|i: int|
                    #![trigger head[i]]
                    0 <= i < head.len() && head[i].address == record.address && head[i].value
                        == record.value && landing(snapshots, links, from, record.address) is None;
                assert(olds[i] == head[i]);
            }
        }
        if rest.contains(record) {
            let m = choose|m: int| 0 <= m < rest.len() && rest[m] == record;
            assert(all[m] == record);
        }
        if exists|i: int|
            #![trigger olds[i]]
            0 <= i < olds.len() && olds[i].address == record.address && olds[i].value
                == record.value && landing(snapshots, links, from, record.address) is None {
            let i = choose|i: int|
                #![trigger olds[i]]
                0 <= i < olds.len() && olds[i].address == record.address && olds[i].value
                    == record.value && landing(snapshots, links, from, record.address) is None;
            if i < last {
                assert(head[i] == olds[i]);
            } else {
                assert(all[rest.len() as int] == record);
            }
        }
    } else {
        assert(retired_of(snapshots, links, from, olds).len() == 0);
    }
}

proof fn lemma_added_iff(
    snapshots: Seq<SnapshotView>,
    links: Seq<LinkView>,
    from: int,
    news: Seq<EntryView>,
    record: CeilingView,
)
    ensures
        added_of(snapshots, links, from, news).contains(record) <==> exists|i: int|
            #![trigger news[i]]
            0 <= i < news.len() && news[i].address == record.address && news[i].value
                == record.value && !is_continued(
                snapshots,
                links,
                from,
                snapshots[from].entries,
                record.address,
            ),
    decreases news.len(),
{
    let olds = snapshots[from].entries;
    if news.len() > 0 {
        let all = added_of(snapshots, links, from, news);
        let head = news.drop_last();
        let rest = added_of(snapshots, links, from, head);
        let last = news.len() - 1;
        lemma_added_iff(snapshots, links, from, head, record);
        assert(news[last] == news.last());
        assert forall|i: int| #![trigger news[i]] 0 <= i < last implies news[i] == head[i] by {}
        if all.contains(record) {
            let m = choose|m: int| 0 <= m < all.len() && all[m] == record;
            if m < rest.len() {
                assert(rest[m] == record);
                let i = choose|i: int|
                    #![trigger head[i]]
                    0 <= i < head.len() && head[i].address == record.address && head[i].value
                        == record.value && !is_continued(
                        snapshots,
                        links,
                        from,
                        olds,
                        record.address,
                    );
                assert(news[i] == head[i]);
            }
        }
        if rest.contains(record) {
            let m = choose|m: int| 0 <= m < rest.len() && rest[m] == record;
            assert(all[m] == record);
        }
        if exists|i: int|
            #![trigger news[i]]
            0 <= i < news.len() && news[i].address == record.address && news[i].value
                == record.value && !is_continued(snapshots, links, from, olds, record.address) {
            let i = choose|i: int|
                #![trigger news[i]]
                0 <= i < news.len() && news[i].address == record.address && news[i].value
                    == record.value && !is_continued(snapshots, links, from, olds, record.address);
            if i < last {
                assert(head[i] == news[i]);
            } else {
                assert(all[rest.len() as int] == record);
            }
        }
    } else {
        assert(added_of(snapshots, links, from, news).len() == 0);
    }
}

proof fn lemma_deferred_iff(
    snapshots: Seq<SnapshotView>,
    links: Seq<LinkView>,
    news: Seq<EntryView>,
    record: DeferredAgeView,
)
    ensures
        deferred_of(snapshots, links, news).len() <= news.len(),
        deferred_of(snapshots, links, news).contains(record) <==> exists|i: int|
            #![trigger news[i]]
            0 <= i < news.len() && news[i].kind == Kind::Deferred && is_deferred_age(
                snapshots,
                links,
                news[i],
                record,
            ),
    decreases news.len(),
{
    let all = deferred_of(snapshots, links, news);
    if news.len() > 0 {
        let head = news.drop_last();
        let rest = deferred_of(snapshots, links, head);
        let last = news.len() - 1;
        lemma_deferred_iff(snapshots, links, head, record);
        assert(news[last] == news.last());
        assert forall|i: int| #![trigger news[i]] 0 <= i < last implies news[i] == head[i] by {}
        if all.contains(record) {
            let m = choose|m: int| 0 <= m < all.len() && all[m] == record;
            if m < rest.len() {
                assert(rest[m] == record);
                let i = choose|i: int|
                    #![trigger head[i]]
                    0 <= i < head.len() && head[i].kind == Kind::Deferred && is_deferred_age(
                        snapshots,
                        links,
                        head[i],
                        record,
                    );
                assert(news[i] == head[i]);
            }
        }
        if rest.contains(record) {
            let m = choose|m: int| 0 <= m < rest.len() && rest[m] == record;
            assert(all[m] == record);
        }
        if exists|i: int|
            #![trigger news[i]]
            0 <= i < news.len() && news[i].kind == Kind::Deferred && is_deferred_age(
                snapshots,
                links,
                news[i],
                record,
            ) {
            let i = choose|i: int|
                #![trigger news[i]]
                0 <= i < news.len() && news[i].kind == Kind::Deferred && is_deferred_age(
                    snapshots,
                    links,
                    news[i],
                    record,
                );
            if i < last {
                assert(head[i] == news[i]);
            } else {
                assert(all[rest.len() as int] == record);
            }
        }
    } else {
        assert(all.len() == 0);
    }
}

proof fn lemma_records_are_few(
    snapshots: Seq<SnapshotView>,
    links: Seq<LinkView>,
    from: int,
    list: Seq<EntryView>,
)
    ensures
        changed_of(snapshots, links, from, list, true).len() + changed_of(
            snapshots,
            links,
            from,
            list,
            false,
        ).len() + retired_of(snapshots, links, from, list).len() <= list.len(),
        renamed_of(snapshots, links, from, list).len() + retired_of(
            snapshots,
            links,
            from,
            list,
        ).len() <= list.len(),
        added_of(snapshots, links, from, list).len() <= list.len(),
    decreases list.len(),
{
    if list.len() > 0 {
        lemma_records_are_few(snapshots, links, from, list.drop_last());
    }
}

// ---------------------------------------------------------------------------
// The report
// ---------------------------------------------------------------------------

proof fn lemma_sorted_views<T: Ranked + DeepView>(before: Vec<T>, after: Vec<T>)
    requires
        is_stable_sort(before@, after@),
    ensures
        before.deep_view().len() == after.deep_view().len(),
        forall|x: T::V| #[trigger]
            after.deep_view().contains(x) <==> before.deep_view().contains(x),
{
    before@.to_multiset_ensures();
    after@.to_multiset_ensures();
    let a = after.deep_view();
    let b = before.deep_view();
    assert forall|x: T::V| #[trigger] a.contains(x) <==> b.contains(x) by {
        if a.contains(x) {
            let m = choose|m: int| 0 <= m < a.len() && a[m] == x;
            assert(after@.contains(after@[m]));
            assert(before@.to_multiset().count(after@[m]) > 0);
            assert(before@.contains(after@[m]));
            let k = choose|k: int| 0 <= k < before@.len() && before@[k] == after@[m];
            assert(b[k] == x);
        }
        if b.contains(x) {
            let m = choose|m: int| 0 <= m < b.len() && b[m] == x;
            assert(before@.contains(before@[m]));
            assert(after@.to_multiset().count(before@[m]) > 0);
            assert(after@.contains(before@[m]));
            let k = choose|k: int| 0 <= k < after@.len() && after@[k] == before@[m];
            assert(a[k] == x);
        }
    }
}

/// The two hold the same records, in whatever order.
spec fn same_records(a: HistoryView, b: HistoryView) -> bool {
    &&& a.from == b.from
    &&& a.to == b.to
    &&& a.added.len() == b.added.len()
    &&& a.retired.len() == b.retired.len()
    &&& a.raised.len() == b.raised.len()
    &&& a.lowered.len() == b.lowered.len()
    &&& a.renamed.len() == b.renamed.len()
    &&& a.deferred_ages.len() == b.deferred_ages.len()
    &&& a.soft_finding_ages.len() == b.soft_finding_ages.len()
    &&& forall|x: CeilingView| #[trigger] a.added.contains(x) <==> b.added.contains(x)
    &&& forall|x: CeilingView| #[trigger] a.retired.contains(x) <==> b.retired.contains(x)
    &&& forall|x: ChangeView| #[trigger] a.raised.contains(x) <==> b.raised.contains(x)
    &&& forall|x: ChangeView| #[trigger] a.lowered.contains(x) <==> b.lowered.contains(x)
    &&& forall|x: RenamedView| #[trigger] a.renamed.contains(x) <==> b.renamed.contains(x)
    &&& forall|x: DeferredAgeView| #[trigger]
        a.deferred_ages.contains(x) <==> b.deferred_ages.contains(x)
    &&& forall|x: FindingAgeView| #[trigger]
        a.soft_finding_ages.contains(x) <==> b.soft_finding_ages.contains(x)
}

proof fn lemma_report_holds(
    snapshots: Seq<SnapshotView>,
    links: Seq<LinkView>,
    from: int,
    report: History,
)
    requires
        is_report(snapshots, links, from, report),
    ensures
        same_records(report@, history_of(snapshots, links, from)),
{
    let unsorted = choose|unsorted: History| #[trigger]
        is_sorted_report(unsorted, report) && unsorted@ == history_of(snapshots, links, from);
    lemma_sorted_views(unsorted.added, report.added);
    lemma_sorted_views(unsorted.retired, report.retired);
    lemma_sorted_views(unsorted.raised, report.raised);
    lemma_sorted_views(unsorted.lowered, report.lowered);
    lemma_sorted_views(unsorted.renamed, report.renamed);
    lemma_sorted_views(unsorted.deferred_ages, report.deferred_ages);
    lemma_sorted_views(unsorted.soft_finding_ages, report.soft_finding_ages);
}

/// Every ceiling that changed is recorded. An entry of the first endpoint that
/// continues at the address of an entry of the last one is reported there with
/// both values: as raised where the value grew, as lowered where it fell.
pub proof fn lemma_every_ceiling_change_is_recorded(
    snapshots: Seq<SnapshotView>,
    links: Seq<LinkView>,
    from: int,
    report: History,
    i: int,
    j: int,
)
    requires
        is_report(snapshots, links, from, report),
        0 <= i < snapshots[from].entries.len(),
        is_first_at(snapshots.last().entries, j),
        continues(
            snapshots,
            links,
            from,
            snapshots[from].entries[i].address,
            snapshots.last().entries[j].address,
        ),
    ensures
        ({
            let old_value = snapshots[from].entries[i].value;
            let new_value = snapshots.last().entries[j].value;
            let record = ChangeView {
                address: snapshots.last().entries[j].address,
                old_value,
                new_value,
            };
            &&& old_value < new_value ==> report@.raised.contains(record)
            &&& old_value > new_value ==> report@.lowered.contains(record)
        }),
{
    let olds = snapshots[from].entries;
    let news = snapshots.last().entries;
    let b = news[j].address;
    lemma_report_holds(snapshots, links, from, report);
    lemma_continues_lands(snapshots, links, from, olds[i].address, b);
    lemma_value_at(news, b, j);
    if olds[i].value < news[j].value {
        lemma_changed_holds(snapshots, links, from, olds, true, i, b);
    }
    if olds[i].value > news[j].value {
        lemma_changed_holds(snapshots, links, from, olds, false, i, b);
    }
}

proof fn lemma_first_with(entries: Seq<EntryView>, address: AddressView, k: int) -> (j: int)
    requires
        0 <= k < entries.len(),
        entries[k].address == address,
    ensures
        is_first_at(entries, j),
        entries[j].address == address,
    decreases k,
{
    if exists|m: int| #![trigger entries[m]] 0 <= m < k && entries[m].address == address {
        let m = choose|m: int| #![trigger entries[m]] 0 <= m < k && entries[m].address == address;
        lemma_first_with(entries, address, m)
    } else {
        k
    }
}

/// Only ceilings that changed are recorded: every record of a raised or lowered
/// ceiling is of an entry of the first endpoint that comes to its address, with
/// the value it had there and the value it has at the last one.
pub proof fn lemma_only_ceiling_changes_are_recorded(
    snapshots: Seq<SnapshotView>,
    links: Seq<LinkView>,
    from: int,
    report: History,
    record: ChangeView,
    up: bool,
) -> (r: (int, int, Option<MovementKind>))
    requires
        is_report(snapshots, links, from, report),
        up ==> report@.raised.contains(record),
        !up ==> report@.lowered.contains(record),
    ensures
        0 <= r.0 < snapshots[from].entries.len(),
        is_first_at(snapshots.last().entries, r.1),
        snapshots.last().entries[r.1].address == record.address,
        arrives(
            snapshots,
            links,
            from,
            snapshots[from].entries[r.0].address,
            record.address,
            r.2,
        ),
        record.old_value == snapshots[from].entries[r.0].value,
        record.new_value == snapshots.last().entries[r.1].value,
        up ==> record.old_value < record.new_value,
        !up ==> record.old_value > record.new_value,
{
    let olds = snapshots[from].entries;
    let news = snapshots.last().entries;
    lemma_report_holds(snapshots, links, from, report);
    let i = lemma_changed_comes(snapshots, links, from, olds, up, record);
    lemma_landing_arrives(snapshots, links, from, olds[i].address, record.address);
    let kind = choose|kind: Option<MovementKind>| #[trigger]
        arrives(snapshots, links, from, olds[i].address, record.address, kind);
    let k = choose|k: int|
        #![trigger snapshots.last().entries[k]]
        0 <= k < snapshots.last().entries.len() && snapshots.last().entries[k].address
            == record.address;
    let j = lemma_first_with(news, record.address, k);
    lemma_value_at(news, record.address, j);
    (i, j, kind)
}

/// An entry that continues at another address is reported as renamed from the
/// one to the other, on the evidence of a directory exactly when there is some.
/// Then it is neither retired nor is the other added.
pub proof fn lemma_every_move_is_recorded(
    snapshots: Seq<SnapshotView>,
    links: Seq<LinkView>,
    from: int,
    report: History,
    i: int,
    b: AddressView,
    kind: MovementKind,
    value: int,
)
    requires
        is_report(snapshots, links, from, report),
        0 <= i < snapshots[from].entries.len(),
        continues(snapshots, links, from, snapshots[from].entries[i].address, b),
        kind == MovementKind::Directory <==> arrives(
            snapshots,
            links,
            from,
            snapshots[from].entries[i].address,
            b,
            Some(MovementKind::Directory),
        ),
    ensures
        snapshots[from].entries[i].address != b ==> report@.renamed.contains(
            RenamedView { kind, old: snapshots[from].entries[i].address, new: b },
        ),
        !report@.retired.contains(
            CeilingView { address: snapshots[from].entries[i].address, value },
        ),
        !report@.added.contains(CeilingView { address: b, value }),
{
    let olds = snapshots[from].entries;
    let news = snapshots.last().entries;
    let a = olds[i].address;
    lemma_report_holds(snapshots, links, from, report);
    lemma_continues_lands(snapshots, links, from, a, b);
    let some = choose|kind: Option<MovementKind>| #[trigger]
        arrives(snapshots, links, from, a, b, kind);
    lemma_kind_of_a_move(snapshots, links, from, a, b, some);
    assert(kind == kind_of_move(snapshots, links, from, a, b));
    if a != b {
        lemma_renamed_holds(snapshots, links, from, olds, i, b);
    }
    lemma_retired_iff(snapshots, links, from, olds, CeilingView { address: a, value });
    lemma_added_iff(snapshots, links, from, news, CeilingView { address: b, value });
    assert(is_continued(snapshots, links, from, olds, b));
}

/// Only moves are recorded as renames: of an entry of the first endpoint that
/// comes to another address, on the evidence that the record names.
pub proof fn lemma_only_moves_are_recorded(
    snapshots: Seq<SnapshotView>,
    links: Seq<LinkView>,
    from: int,
    report: History,
    record: RenamedView,
) -> (r: (int, Option<MovementKind>))
    requires
        is_report(snapshots, links, from, report),
        report@.renamed.contains(record),
    ensures
        0 <= r.0 < snapshots[from].entries.len(),
        snapshots[from].entries[r.0].address == record.old,
        record.old != record.new,
        arrives(snapshots, links, from, record.old, record.new, r.1),
        record.kind == MovementKind::Directory <==> arrives(
            snapshots,
            links,
            from,
            record.old,
            record.new,
            Some(MovementKind::Directory),
        ),
{
    let olds = snapshots[from].entries;
    lemma_report_holds(snapshots, links, from, report);
    let i = lemma_renamed_comes(snapshots, links, from, olds, record);
    lemma_landing_arrives(snapshots, links, from, record.old, record.new);
    let kind = choose|kind: Option<MovementKind>| #[trigger]
        arrives(snapshots, links, from, record.old, record.new, kind);
    lemma_kind_of_a_move(snapshots, links, from, record.old, record.new, kind);
    (i, kind)
}

/// An entry is retired exactly when it was at the first endpoint and continues
/// nowhere.
pub proof fn lemma_retired_are_those_that_end(
    snapshots: Seq<SnapshotView>,
    links: Seq<LinkView>,
    from: int,
    report: History,
    record: CeilingView,
)
    requires
        is_report(snapshots, links, from, report),
    ensures
        report@.retired.contains(record) <==> ends(snapshots, links, from, record.address)
            && exists|i: int|
            #![trigger snapshots[from].entries[i]]
            0 <= i < snapshots[from].entries.len() && snapshots[from].entries[i].address
                == record.address && snapshots[from].entries[i].value == record.value,
{
    lemma_report_holds(snapshots, links, from, report);
    lemma_retired_iff(snapshots, links, from, snapshots[from].entries, record);
    lemma_ends_nowhere(snapshots, links, from, record.address);
}

/// An entry is added exactly when it is at the last endpoint and no entry of the
/// first one continues there.
pub proof fn lemma_added_are_those_that_start(
    snapshots: Seq<SnapshotView>,
    links: Seq<LinkView>,
    from: int,
    report: History,
    record: CeilingView,
)
    requires
        is_report(snapshots, links, from, report),
        is_comparable(snapshots, links, from),
    ensures
        report@.added.contains(record) <==> (exists|j: int|
            #![trigger snapshots.last().entries[j]]
            0 <= j < snapshots.last().entries.len() && snapshots.last().entries[j].address
                == record.address && snapshots.last().entries[j].value == record.value) && !exists|
            i: int,
            kind: Option<MovementKind>,
        |
            0 <= i < snapshots[from].entries.len() && #[trigger] arrives(
                snapshots,
                links,
                from,
                snapshots[from].entries[i].address,
                record.address,
                kind,
            ),
{
    let olds = snapshots[from].entries;
    let b = record.address;
    lemma_report_holds(snapshots, links, from, report);
    lemma_added_iff(snapshots, links, from, snapshots.last().entries, record);
    if is_continued(snapshots, links, from, olds, b) {
        let i = choose|i: int|
            #![trigger olds[i]]
            0 <= i < olds.len() && landing(snapshots, links, from, olds[i].address) == Some(b);
        lemma_landing_arrives(snapshots, links, from, olds[i].address, b);
        let kind = choose|kind: Option<MovementKind>| #[trigger]
            arrives(snapshots, links, from, olds[i].address, b, kind);
        assert(arrives(snapshots, links, from, snapshots[from].entries[i].address, b, kind));
    }
    if exists|i: int, kind: Option<MovementKind>|
        0 <= i < snapshots[from].entries.len() && #[trigger] arrives(
            snapshots,
            links,
            from,
            snapshots[from].entries[i].address,
            record.address,
            kind,
        ) {
        let (i, kind) = choose|i: int, kind: Option<MovementKind>|
            0 <= i < snapshots[from].entries.len() && #[trigger] arrives(
                snapshots,
                links,
                from,
                snapshots[from].entries[i].address,
                record.address,
                kind,
            );
        let a = olds[i].address;
        assert(!is_split(snapshots, links, from, a));
        lemma_split_is_two_arrivals(snapshots, links, from, a);
        assert forall|c: AddressView, other: Option<MovementKind>| #[trigger] arrives(
            snapshots,
            links,
            from,
            a,
            c,
            other,
        ) implies c == b by {
            assert(arrives(snapshots, links, from, a, b, kind));
        }
        assert(continues(snapshots, links, from, a, b));
        lemma_continues_lands(snapshots, links, from, a, b);
        assert(is_continued(snapshots, links, from, olds, b));
    }
}

/// No entry and no finding is told of more often than it occurs, and the report
/// names its two endpoints.
pub proof fn lemma_report_tells_once(
    snapshots: Seq<SnapshotView>,
    links: Seq<LinkView>,
    from: int,
    report: History,
)
    requires
        is_report(snapshots, links, from, report),
    ensures
        report@.from == snapshots[from].sha,
        report@.to == snapshots[snapshots.len() - 1].sha,
        report@.raised.len() + report@.lowered.len() + report@.retired.len()
            <= snapshots[from].entries.len(),
        report@.renamed.len() + report@.retired.len() <= snapshots[from].entries.len(),
        report@.added.len() <= snapshots.last().entries.len(),
        report@.deferred_ages.len() <= snapshots.last().entries.len(),
        report@.soft_finding_ages.len() == snapshots.last().findings.len(),
{
    lemma_report_holds(snapshots, links, from, report);
    lemma_records_are_few(snapshots, links, from, snapshots[from].entries);
    lemma_records_are_few(snapshots, links, from, snapshots.last().entries);
    lemma_deferred_iff(
        snapshots,
        links,
        snapshots.last().entries,
        DeferredAgeView {
            entry: CeilingView {
                address: snapshots.last().entries[0].address,
                value: 0,
            },
            first_seen_commit: Seq::empty(),
            first_seen_date: Seq::empty(),
            age_days: 0,
        },
    );
}

// ---------------------------------------------------------------------------
// Ages
// ---------------------------------------------------------------------------

/// The age is the number of whole days of 24 hours between the two times.
pub open spec fn is_age(days: int, first: int, to: int) -> bool {
    days * 86_400 <= to - first < (days + 1) * 86_400
}

/// The record tells of the entry since when it has been deferred.
pub open spec fn is_deferred_age(
    snapshots: Seq<SnapshotView>,
    links: Seq<LinkView>,
    entry: EntryView,
    record: DeferredAgeView,
) -> bool {
    let last = snapshots.len() - 1;
    let since = snapshots[first_seen::<EntryState>(snapshots, links, last, entry.address)];
    &&& record.entry.address == entry.address
    &&& record.entry.value == entry.value
    &&& record.first_seen_commit == since.sha
    &&& record.first_seen_date == since.date
    &&& is_age(record.age_days, since.timestamp, snapshots[last].timestamp)
}

/// The deferrals that a report tells of are those of the last endpoint, each
/// with the commit and date at which it first appeared and its age in whole
/// days.
pub proof fn lemma_every_deferral_has_its_age(
    snapshots: Seq<SnapshotView>,
    links: Seq<LinkView>,
    from: int,
    report: History,
    record: DeferredAgeView,
)
    requires
        is_report(snapshots, links, from, report),
    ensures
        report@.deferred_ages.contains(record) <==> exists|j: int|
            #![trigger snapshots.last().entries[j]]
            {
                &&& 0 <= j < snapshots.last().entries.len()
                &&& snapshots.last().entries[j].kind == Kind::Deferred
                &&& is_deferred_age(snapshots, links, snapshots.last().entries[j], record)
            },
{
    let news = snapshots.last().entries;
    lemma_report_holds(snapshots, links, from, report);
    lemma_deferred_iff(snapshots, links, news, record);
    if report@.deferred_ages.contains(record) {
        let j = choose|j: int|
            #![trigger news[j]]
            0 <= j < news.len() && news[j].kind == Kind::Deferred && is_deferred_age(
                snapshots,
                links,
                news[j],
                record,
            );
        assert(snapshots.last().entries[j] == news[j]);
    }
    if exists|j: int|
        #![trigger snapshots.last().entries[j]]
        {
            &&& 0 <= j < snapshots.last().entries.len()
            &&& snapshots.last().entries[j].kind == Kind::Deferred
            &&& is_deferred_age(snapshots, links, snapshots.last().entries[j], record)
        } {
        let j = choose|j: int|
            #![trigger snapshots.last().entries[j]]
            {
                &&& 0 <= j < snapshots.last().entries.len()
                &&& snapshots.last().entries[j].kind == Kind::Deferred
                &&& is_deferred_age(snapshots, links, snapshots.last().entries[j], record)
            };
        assert(news[j].kind == Kind::Deferred);
    }
}

/// The record tells of the finding since when it has stood.
pub open spec fn is_finding_age(
    snapshots: Seq<SnapshotView>,
    links: Seq<LinkView>,
    finding: FindingView,
    record: FindingAgeView,
) -> bool {
    let last = snapshots.len() - 1;
    let since = snapshots[first_seen::<FindingState>(snapshots, links, last, finding.address)];
    &&& record.finding == finding
    &&& record.first_seen_commit == since.sha
    &&& record.first_seen_date == since.date
    &&& is_age(record.age_days, since.timestamp, snapshots[last].timestamp)
}

/// The findings that a report tells of are those of the last endpoint, each with
/// the commit and date at which it first appeared and its age in whole days.
pub proof fn lemma_every_finding_has_its_age(
    snapshots: Seq<SnapshotView>,
    links: Seq<LinkView>,
    from: int,
    report: History,
    record: FindingAgeView,
)
    requires
        is_report(snapshots, links, from, report),
    ensures
        report@.soft_finding_ages.contains(record) <==> exists|j: int|
            #![trigger snapshots.last().findings[j]]
            0 <= j < snapshots.last().findings.len() && is_finding_age(
                snapshots,
                links,
                snapshots.last().findings[j],
                record,
            ),
{
    let findings = snapshots.last().findings;
    let ages = history_of(snapshots, links, from).soft_finding_ages;
    lemma_report_holds(snapshots, links, from, report);
    assert forall|j: int| #![trigger ages[j]] 0 <= j < findings.len() implies is_finding_age(
        snapshots,
        links,
        findings[j],
        ages[j],
    ) by {
        assert(ages[j] == finding_age(snapshots, links, findings[j]));
    }
    if report@.soft_finding_ages.contains(record) {
        let j = choose|j: int| 0 <= j < ages.len() && ages[j] == record;
        assert(is_finding_age(snapshots, links, snapshots.last().findings[j], record));
    }
    if exists|j: int|
        #![trigger snapshots.last().findings[j]]
        0 <= j < snapshots.last().findings.len() && is_finding_age(
            snapshots,
            links,
            snapshots.last().findings[j],
            record,
        ) {
        let j = choose|j: int|
            #![trigger snapshots.last().findings[j]]
            0 <= j < snapshots.last().findings.len() && is_finding_age(
                snapshots,
                links,
                snapshots.last().findings[j],
                record,
            );
        assert(is_finding_age(snapshots, links, findings[j], ages[j]));
        assert(ages[j] == record);
    }
}

// ---------------------------------------------------------------------------
// The order of a report
// ---------------------------------------------------------------------------

/// Addresses are ordered by severity, registry, path, match, unit and rules: the
/// first of them that differs decides.
pub proof fn lemma_addresses_ascend(a: AddressView, b: AddressView)
    ensures
        text_order(a.severity, b.severity) != Order::Same ==> address_order(a, b) == text_order(
            a.severity,
            b.severity,
        ),
        a.severity == b.severity && text_order(a.registry, b.registry) != Order::Same
            ==> address_order(a, b) == text_order(a.registry, b.registry),
        a.severity == b.severity && a.registry == b.registry && text_order(a.path, b.path)
            != Order::Same ==> address_order(a, b) == text_order(a.path, b.path),
        a.severity == b.severity && a.registry == b.registry && a.path == b.path && text_order(
            a.match_kind,
            b.match_kind,
        ) != Order::Same ==> address_order(a, b) == text_order(a.match_kind, b.match_kind),
        a.severity == b.severity && a.registry == b.registry && a.path == b.path && a.match_kind
            == b.match_kind && text_order(a.unit, b.unit) != Order::Same ==> address_order(a, b)
            == text_order(a.unit, b.unit),
        a.severity == b.severity && a.registry == b.registry && a.path == b.path && a.match_kind
            == b.match_kind && a.unit == b.unit ==> address_order(a, b) == list_order(
            a.rules,
            b.rules,
        ),
{
    lemma_same_text(a.severity);
    lemma_same_text(a.registry);
    lemma_same_text(a.path);
    lemma_same_text(a.match_kind);
    lemma_same_text(a.unit);
}

/// Findings are ordered by path, rule and unit: the first of them that differs
/// decides.
pub proof fn lemma_findings_ascend(
    a: FindingAddressView,
    b: FindingAddressView,
)
    ensures
        text_order(a.path, b.path) != Order::Same ==> finding_order(a, b) == text_order(
            a.path,
            b.path,
        ),
        a.path == b.path && text_order(a.rule, b.rule) != Order::Same ==> finding_order(a, b)
            == text_order(a.rule, b.rule),
        a.path == b.path && a.rule == b.rule ==> finding_order(a, b) == text_order(a.unit, b.unit),
{
    lemma_same_text(a.path);
    lemma_same_text(a.rule);
}

/// A report lists its ceilings, changes and renames by address, and a rename by
/// its new address; it lists ages from the oldest to the youngest, those of one
/// age by the commit at which they first appeared.
pub proof fn lemma_report_is_ordered(
    snapshots: Seq<SnapshotView>,
    links: Seq<LinkView>,
    from: int,
    report: History,
    i: int,
    j: int,
)
    requires
        is_report(snapshots, links, from, report),
        0 <= i < j,
    ensures
        j < report@.added.len() ==> address_order(
            report@.added[i].address,
            report@.added[j].address,
        ) != Order::After,
        j < report@.retired.len() ==> address_order(
            report@.retired[i].address,
            report@.retired[j].address,
        ) != Order::After,
        j < report@.raised.len() ==> address_order(
            report@.raised[i].address,
            report@.raised[j].address,
        ) != Order::After,
        j < report@.lowered.len() ==> address_order(
            report@.lowered[i].address,
            report@.lowered[j].address,
        ) != Order::After,
        j < report@.renamed.len() ==> address_order(
            report@.renamed[i].new,
            report@.renamed[j].new,
        ) != Order::After,
        j < report@.deferred_ages.len() ==> {
            let a = report@.deferred_ages[i];
            let b = report@.deferred_ages[j];
            &&& a.age_days >= b.age_days
            &&& a.age_days == b.age_days ==> text_order(a.first_seen_commit, b.first_seen_commit)
                != Order::After
            &&& a.age_days == b.age_days && a.first_seen_commit == b.first_seen_commit
                ==> address_order(a.entry.address, b.entry.address) != Order::After
        },
        j < report@.soft_finding_ages.len() ==> {
            let a = report@.soft_finding_ages[i];
            let b = report@.soft_finding_ages[j];
            &&& a.age_days >= b.age_days
            &&& a.age_days == b.age_days ==> text_order(a.first_seen_commit, b.first_seen_commit)
                != Order::After
            &&& a.age_days == b.age_days && a.first_seen_commit == b.first_seen_commit
                ==> finding_order(a.finding.address, b.finding.address) != Order::After
        },
{
    let unsorted = choose|unsorted: History| #[trigger]
        is_sorted_report(unsorted, report) && unsorted@ == history_of(snapshots, links, from);
    if j < report@.added.len() {
        assert(report.added@[i].rank(&report.added@[j]) != Order::After);
    }
    if j < report@.retired.len() {
        assert(report.retired@[i].rank(&report.retired@[j]) != Order::After);
    }
    if j < report@.raised.len() {
        assert(report.raised@[i].rank(&report.raised@[j]) != Order::After);
    }
    if j < report@.lowered.len() {
        assert(report.lowered@[i].rank(&report.lowered@[j]) != Order::After);
    }
    if j < report@.renamed.len() {
        assert(report.renamed@[i].rank(&report.renamed@[j]) != Order::After);
    }
    if j < report@.deferred_ages.len() {
        assert(report.deferred_ages@[i].rank(&report.deferred_ages@[j]) != Order::After);
        lemma_same_text(report@.deferred_ages[i].first_seen_commit);
    }
    if j < report@.soft_finding_ages.len() {
        assert(report.soft_finding_ages@[i].rank(&report.soft_finding_ages@[j]) != Order::After);
        lemma_same_text(report@.soft_finding_ages[i].first_seen_commit);
    }
}

// ---------------------------------------------------------------------------
// Refusals
// ---------------------------------------------------------------------------

/// The state can have an age: it first appeared no later than the last endpoint
/// was made.
pub open spec fn precedes_the_end(snapshots: Seq<SnapshotView>, since: int) -> bool {
    0 <= snapshots[snapshots.len() - 1].timestamp - snapshots[since].timestamp <= i64::MAX
}

/// Two states can be compared exactly when no entry comes to two entries, and
/// every deferral and finding of the last endpoint first appeared before its
/// end.
pub proof fn lemma_what_can_be_compared(
    snapshots: Seq<SnapshotView>,
    links: Seq<LinkView>,
    from: int,
)
    requires
        snapshots.len() > 0,
    ensures
        is_comparable(snapshots, links, from) <==> {
            let last = snapshots.len() - 1;
            &&& forall|i: int|
                #![trigger snapshots[from].entries[i]]
                0 <= i < snapshots[from].entries.len() ==> !is_split(
                    snapshots,
                    links,
                    from,
                    snapshots[from].entries[i].address,
                )
            &&& forall|j: int|
                #![trigger snapshots[last].entries[j]]
                0 <= j < snapshots[last].entries.len() && snapshots[last].entries[j].kind
                    == Kind::Deferred ==> precedes_the_end(
                    snapshots,
                    first_seen::<EntryState>(
                        snapshots,
                        links,
                        last,
                        snapshots[last].entries[j].address,
                    ),
                )
            &&& forall|j: int|
                #![trigger snapshots[last].findings[j]]
                0 <= j < snapshots[last].findings.len() ==> precedes_the_end(
                    snapshots,
                    first_seen::<FindingState>(
                        snapshots,
                        links,
                        last,
                        snapshots[last].findings[j].address,
                    ),
                )
        },
{
}

/// A refused comparison says why: it names the path of the first entry that
/// comes to two entries, or says that a state is younger than the endpoint.
pub proof fn lemma_refused_comparison_says_why(
    range: Text,
    snapshots: Seq<SnapshotView>,
    links: Seq<LinkView>,
    from: int,
    error: HistoryErrorView,
    i: int,
)
    requires
        is_comparison_error(range, snapshots, links, from, error),
        0 <= i <= snapshots[from].entries.len(),
        forall|m: int|
            #![trigger snapshots[from].entries[m]]
            0 <= m < i ==> !is_split(snapshots, links, from, snapshots[from].entries[m].address),
        i < snapshots[from].entries.len() ==> is_split(
            snapshots,
            links,
            from,
            snapshots[from].entries[i].address,
        ),
    ensures
        error.range == Some(range),
        i < snapshots[from].entries.len() ==> error.cause == "ambiguous rename evidence for "@
            + snapshots[from].entries[i].address.path,
        i == snapshots[from].entries.len() ==> error.cause
            == "first-seen timestamp is later than the endpoint"@,
{
    let olds = snapshots[from].entries;
    if i < olds.len() {
        assert(is_split(snapshots, links, from, olds[i].address));
        let k = choose|k: int|
            #![trigger olds[k]]
            {
                &&& 0 <= k < olds.len()
                &&& is_split(snapshots, links, from, olds[k].address)
                &&& none_split(snapshots, links, from, olds.take(k))
                &&& error == failure(range, ambiguous_at(olds[k].address.path))
            };
        if k < i {
            assert(!is_split(snapshots, links, from, snapshots[from].entries[k].address));
        } else if i < k {
            assert(olds.take(k)[i] == olds[i]);
        }
    }
}

/// A report is proved exactly when none of its deferrals and none of its
/// findings first appears at a commit whose parents are cut off.
pub proof fn lemma_what_is_proved(
    snapshots: Seq<SnapshotView>,
    links: Seq<LinkView>,
    from: int,
    report: History,
    boundaries: Seq<Text>,
)
    requires
        is_report(snapshots, links, from, report),
    ensures
        is_proven(history_of(snapshots, links, from), boundaries) <==> (forall|
            age: DeferredAgeView,
        | #[trigger]
            report@.deferred_ages.contains(age) ==> !boundaries.contains(age.first_seen_commit))
            && (forall|age: FindingAgeView| #[trigger]
            report@.soft_finding_ages.contains(age) ==> !boundaries.contains(
                age.first_seen_commit,
            )),
{
    let h = history_of(snapshots, links, from);
    let commits = appearances(h);
    let n = h.deferred_ages.len() as int;
    lemma_report_holds(snapshots, links, from, report);
    assert forall|i: int| #![trigger commits[i]] 0 <= i < commits.len() implies commits[i] == (
    if i < n {
        h.deferred_ages[i].first_seen_commit
    } else {
        h.soft_finding_ages[i - n].first_seen_commit
    }) by {}
    if is_proven(h, boundaries) {
        assert forall|age: DeferredAgeView| #[trigger]
            report@.deferred_ages.contains(age) implies !boundaries.contains(
            age.first_seen_commit,
        ) by {
            let i = choose|i: int| 0 <= i < n && h.deferred_ages[i] == age;
            assert(commits[i] == age.first_seen_commit);
        }
        assert forall|age: FindingAgeView| #[trigger]
            report@.soft_finding_ages.contains(age) implies !boundaries.contains(
            age.first_seen_commit,
        ) by {
            let i = choose|i: int|
                0 <= i < h.soft_finding_ages.len() && h.soft_finding_ages[i] == age;
            assert(commits[n + i] == age.first_seen_commit);
        }
    } else {
        let i = choose|i: int|
            #![trigger commits[i]]
            0 <= i < commits.len() && boundaries.contains(commits[i]);
        if i < n {
            assert(h.deferred_ages.contains(h.deferred_ages[i]));
            assert(report@.deferred_ages.contains(h.deferred_ages[i]));
        } else {
            assert(h.soft_finding_ages.contains(h.soft_finding_ages[i - n]));
            assert(report@.soft_finding_ages.contains(h.soft_finding_ages[i - n]));
        }
    }
}

/// A report that is not proved is refused with the commit at which the debt
/// first appears.
pub proof fn lemma_unproved_report_says_why(
    range: Text,
    h: HistoryView,
    boundaries: Seq<Text>,
    error: HistoryErrorView,
) -> (commit: Text)
    requires
        is_boundary_error(range, h, boundaries, error),
    ensures
        boundaries.contains(commit),
        (exists|i: int|
            #![trigger h.deferred_ages[i]]
            0 <= i < h.deferred_ages.len() && h.deferred_ages[i].first_seen_commit == commit) || (
        exists|i: int|
            #![trigger h.soft_finding_ages[i]]
            0 <= i < h.soft_finding_ages.len() && h.soft_finding_ages[i].first_seen_commit
                == commit),
        error.range == Some(range),
        error.cause == "revision "@ + commit + ": "@
            + "history before the shallow boundary is unavailable"@,
{
    let commits = appearances(h);
    let n = h.deferred_ages.len() as int;
    let i = choose|i: int|
        #![trigger commits[i]]
        {
            &&& 0 <= i < commits.len()
            &&& boundaries.contains(commits[i])
            &&& forall|j: int|
                #![trigger commits[j]]
                0 <= j < i ==> !boundaries.contains(commits[j])
            &&& error == failure_at(
                range,
                commits[i],
                "history before the shallow boundary is unavailable"@,
            )
        };
    if i < n {
        assert(commits[i] == h.deferred_ages[i].first_seen_commit);
    } else {
        assert(commits[i] == h.soft_finding_ages[i - n].first_seen_commit);
    }
    commits[i]
}

} // verus!
