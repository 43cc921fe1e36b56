//! The comparison of two committed states: which exceptions came, went, moved
//! or changed their ceiling, and how old the standing debt is.

use vstd::prelude::*;
use vstd::string::*;

use super::ages::{age_days, days_between, entry_ages, finding_ages, first_seen, is_elapsed};
use super::data::{
    Address, AddressView, Ceiling, CeilingChange, CeilingView, ChangeView, DeferredAge,
    DeferredAgeView, EntryState, EntryView, FindingAge, FindingAgeView, FindingState, FindingView,
    MovementKind, Renamed, RenamedView, Snapshot, SnapshotView,
};
use super::error::{failure, failure_at, HistoryError, HistoryErrorView};
use super::evidence::{entry_at, has_address};
use super::git::{Repository, Revision, RevisionView};
use super::movement::{
    are_mappings, covers, goes_to, mappings_at_to, strength, Mapping, MappingView,
};
use super::report::{History, HistoryView};
use super::transitions::{ambiguous_at, LinkView, Transitions};
use crate::exceptions::Kind;
use crate::order::{is_stable_sort, sort};
use crate::text::{holds_text, same, Text};

verus! {

// ---------------------------------------------------------------------------
// Where entries land
// ---------------------------------------------------------------------------

/// The entry of the first endpoint is the one at `b` at the last endpoint, and
/// `kind` is evidence for it.
pub open spec fn lands_with(
    snapshots: Seq<SnapshotView>,
    links: Seq<LinkView>,
    from: int,
    a: AddressView,
    b: AddressView,
    kind: Option<MovementKind>,
) -> bool {
    &&& has_address(snapshots.last().entries, b)
    &&& goes_to(
        snapshots,
        links,
        from,
        a,
        snapshots.len() - 1,
        MappingView { address: b, kind },
    )
}

/// The entry of the first endpoint is the one at `b` at the last endpoint.
pub open spec fn lands(
    snapshots: Seq<SnapshotView>,
    links: Seq<LinkView>,
    from: int,
    a: AddressView,
    b: AddressView,
) -> bool {
    exists|kind: Option<MovementKind>| lands_with(snapshots, links, from, a, b, kind)
}

/// More than one entry of the last endpoint would be the entry.
pub open spec fn is_split(
    snapshots: Seq<SnapshotView>,
    links: Seq<LinkView>,
    from: int,
    a: AddressView,
) -> bool {
    exists|b: AddressView, c: AddressView| #[trigger]
        lands(snapshots, links, from, a, b) && #[trigger] lands(snapshots, links, from, a, c) && b
            != c
}

/// The address of the entry at the last endpoint, if it is still there.
pub open spec fn landing(
    snapshots: Seq<SnapshotView>,
    links: Seq<LinkView>,
    from: int,
    a: AddressView,
) -> Option<AddressView> {
    if exists|b: AddressView| lands(snapshots, links, from, a, b) {
        Some(choose|b: AddressView| lands(snapshots, links, from, a, b))
    } else {
        None
    }
}

/// The strongest evidence that the entry is the one at `b`.
pub open spec fn is_evidence(
    snapshots: Seq<SnapshotView>,
    links: Seq<LinkView>,
    from: int,
    a: AddressView,
    b: AddressView,
    kind: Option<MovementKind>,
) -> bool {
    &&& lands_with(snapshots, links, from, a, b, kind)
    &&& forall|other: Option<MovementKind>| #[trigger]
        lands_with(snapshots, links, from, a, b, other) ==> strength(other) <= strength(kind)
}

/// The kind of a movement: that of the strongest evidence for it.
pub open spec fn kind_of_move(
    snapshots: Seq<SnapshotView>,
    links: Seq<LinkView>,
    from: int,
    a: AddressView,
    b: AddressView,
) -> MovementKind {
    match choose|kind: Option<MovementKind>| is_evidence(snapshots, links, from, a, b, kind) {
        Some(kind) => kind,
        None => MovementKind::ExactFile,
    }
}

/// The ceiling of the first entry with the address.
pub open spec fn value_at(entries: Seq<EntryView>, address: AddressView) -> int
    decreases entries.len(),
{
    if entries.len() == 0 {
        0
    } else if entries[0].address == address {
        entries[0].value
    } else {
        value_at(entries.drop_first(), address)
    }
}

/// Where an entry lands.
enum Landing {
    Nowhere,
    At { entry: usize, kind: MovementKind },
    Split,
}

pub(super) proof fn lemma_value_at(entries: Seq<EntryView>, address: AddressView, i: int)
    requires
        0 <= i < entries.len(),
        entries[i].address == address,
        forall|j: int| #![trigger entries[j]] 0 <= j < i ==> entries[j].address != address,
    ensures
        value_at(entries, address) == entries[i].value,
    decreases i,
{
    if i > 0 {
        assert(entries[0].address != address);
        let rest = entries.drop_first();
        assert forall|j: int| #![trigger rest[j]] 0 <= j < i - 1 implies rest[j].address != address by {
            assert(rest[j] == entries[j + 1]);
        }
        lemma_value_at(rest, address, i - 1);
    }
}

/// What lands is among the mappings.
proof fn lemma_mapped(
    snapshots: Seq<SnapshotView>,
    links: Seq<LinkView>,
    from: int,
    a: AddressView,
    list: Seq<MappingView>,
    b: AddressView,
) -> (j: int)
    requires
        are_mappings(snapshots, links, from, a, snapshots.len() - 1, list),
        lands(snapshots, links, from, a, b),
    ensures
        0 <= j < list.len(),
        list[j].address == b,
        has_address(snapshots.last().entries, b),
{
    let kind = choose|kind: Option<MovementKind>| lands_with(snapshots, links, from, a, b, kind);
    assert(covers(list, b, kind));
    choose|j: int|
        #![trigger list[j]]
        0 <= j < list.len() && list[j].address == b && strength(kind) <= strength(list[j].kind)
}

proof fn lemma_nowhere(
    snapshots: Seq<SnapshotView>,
    links: Seq<LinkView>,
    from: int,
    a: AddressView,
    list: Seq<MappingView>,
)
    requires
        are_mappings(snapshots, links, from, a, snapshots.len() - 1, list),
        forall|j: int|
            #![trigger list[j]]
            0 <= j < list.len() ==> !has_address(snapshots.last().entries, list[j].address),
    ensures
        landing(snapshots, links, from, a) is None,
        !is_split(snapshots, links, from, a),
{
    assert forall|b: AddressView| !#[trigger] lands(snapshots, links, from, a, b) by {
        if lands(snapshots, links, from, a, b) {
            let j = lemma_mapped(snapshots, links, from, a, list, b);
        }
    }
}

proof fn lemma_somewhere(
    snapshots: Seq<SnapshotView>,
    links: Seq<LinkView>,
    from: int,
    a: AddressView,
    list: Seq<MappingView>,
    m: int,
)
    requires
        are_mappings(snapshots, links, from, a, snapshots.len() - 1, list),
        0 <= m < list.len(),
        has_address(snapshots.last().entries, list[m].address),
    ensures
        lands(snapshots, links, from, a, list[m].address),
        kind_of_move(snapshots, links, from, a, list[m].address) == match list[m].kind {
            Some(kind) => kind,
            None => MovementKind::ExactFile,
        },
{
    let b = list[m].address;
    let kind = list[m].kind;
    assert(list[m] == (MappingView { address: b, kind }));
    assert(lands_with(snapshots, links, from, a, b, kind));
    assert forall|other: Option<MovementKind>| #[trigger]
        lands_with(snapshots, links, from, a, b, other) implies strength(other) <= strength(
        kind,
    ) by {
        assert(covers(list, b, other));
        let j = choose|j: int|
            #![trigger list[j]]
            0 <= j < list.len() && list[j].address == b && strength(other) <= strength(list[j].kind);
        if j < m {
            assert(list[j].address != list[m].address);
        } else if m < j {
            assert(list[m].address != list[j].address);
        }
    }
    assert(is_evidence(snapshots, links, from, a, b, kind));
    let chosen = choose|kind: Option<MovementKind>|
        is_evidence(snapshots, links, from, a, b, kind);
    assert(is_evidence(snapshots, links, from, a, b, chosen));
    assert(strength(chosen) == strength(kind));
}

proof fn lemma_only(
    snapshots: Seq<SnapshotView>,
    links: Seq<LinkView>,
    from: int,
    a: AddressView,
    list: Seq<MappingView>,
    m: int,
)
    requires
        are_mappings(snapshots, links, from, a, snapshots.len() - 1, list),
        0 <= m < list.len(),
        has_address(snapshots.last().entries, list[m].address),
        forall|j: int|
            #![trigger list[j]]
            0 <= j < list.len() && j != m ==> !has_address(
                snapshots.last().entries,
                list[j].address,
            ),
    ensures
        landing(snapshots, links, from, a) == Some(list[m].address),
        !is_split(snapshots, links, from, a),
{
    lemma_somewhere(snapshots, links, from, a, list, m);
    assert forall|c: AddressView| #[trigger] lands(snapshots, links, from, a, c) implies c
        == list[m].address by {
        let j = lemma_mapped(snapshots, links, from, a, list, c);
    }
}

fn next_landing(mappings: &Vec<Mapping>, entries: &Vec<EntryState>, from: usize) -> (r: Option<(usize, usize)>)
    requires
        from <= mappings@.len(),
    ensures
        match r {
            Some((m, e)) => {
                &&& from <= m < mappings@.len()
                &&& e < entries@.len()
                &&& entries@[e as int].address@ == mappings@[m as int].address@
                &&& forall|j: int|
                    #![trigger entries@[j]]
                    0 <= j < e ==> entries@[j].address@ != mappings@[m as int].address@
                &&& forall|k: int|
                    #![trigger mappings@[k]]
                    from <= k < m ==> !has_address(entries.deep_view(), mappings@[k].address@)
            },
            None => forall|k: int|
                #![trigger mappings@[k]]
                from <= k < mappings@.len() ==> !has_address(
                    entries.deep_view(),
                    mappings@[k].address@,
                ),
        },
{
    let mut m: usize = from;
    while m < mappings.len()
        invariant
            from <= m <= mappings@.len(),
            forall|k: int|
                #![trigger mappings@[k]]
                from <= k < m ==> !has_address(entries.deep_view(), mappings@[k].address@),
        decreases mappings@.len() - m,
    {
        match entry_at(entries, &mappings[m].address) {
            Some(e) => {
                return Some((m, e));
            },
            None => {},
        }
        m += 1;
    }
    None
}

fn land(
    snapshots: &Vec<Snapshot>,
    transitions: &Transitions,
    from: usize,
    address: &Address,
) -> (r: Landing)
    requires
        from < snapshots@.len(),
    ensures
        match r {
            Landing::Nowhere => {
                &&& !is_split(snapshots.deep_view(), transitions@, from as int, address@)
                &&& landing(snapshots.deep_view(), transitions@, from as int, address@) is None
            },
            Landing::At { entry, kind } => {
                let to = snapshots.deep_view().last();
                &&& !is_split(snapshots.deep_view(), transitions@, from as int, address@)
                &&& entry < to.entries.len()
                &&& landing(snapshots.deep_view(), transitions@, from as int, address@) == Some(
                    to.entries[entry as int].address,
                )
                &&& value_at(to.entries, to.entries[entry as int].address)
                    == to.entries[entry as int].value
                &&& kind == kind_of_move(
                    snapshots.deep_view(),
                    transitions@,
                    from as int,
                    address@,
                    to.entries[entry as int].address,
                )
            },
            Landing::Split => is_split(
                snapshots.deep_view(),
                transitions@,
                from as int,
                address@,
            ),
        },
{
    let ghost all = snapshots.deep_view();
    let ghost links = transitions@;
    let n: usize = snapshots.len();
    let mappings = mappings_at_to(snapshots, transitions, from, address);
    let ghost list = mappings.deep_view();
    let count: usize = mappings.len();
    let entries = &snapshots[n - 1].entries;
    let ghost to = all.last().entries;
    assert(all.last() == snapshots@[n - 1]@);
    assert(entries.deep_view() == to);
    assert forall|j: int| #![trigger mappings@[j]] 0 <= j < list.len() implies mappings@[j]@
        == list[j] by {}
    match next_landing(&mappings, entries, 0) {
        None => {
            proof {
                lemma_nowhere(all, links, from as int, address@, list);
            }
            Landing::Nowhere
        },
        Some((m, e)) => {
            proof {
                assert(to[e as int] == entries@[e as int]@);
                lemma_somewhere(all, links, from as int, address@, list, m as int);
            }
            match next_landing(&mappings, entries, m + 1) {
                Some((k, f)) => {
                    proof {
                        assert(to[f as int] == entries@[f as int]@);
                        lemma_somewhere(all, links, from as int, address@, list, k as int);
                        assert(list[m as int].address != list[k as int].address);
                    }
                    Landing::Split
                },
                None => {
                    proof {
                        lemma_only(all, links, from as int, address@, list, m as int);
                        assert forall|j: int| #![trigger to[j]] 0 <= j < e implies to[j].address
                            != list[m as int].address by {
                            assert(to[j] == entries@[j]@);
                        }
                        lemma_value_at(to, list[m as int].address, e as int);
                    }
                    let kind = match mappings[m].kind {
                        Some(kind) => kind,
                        None => MovementKind::ExactFile,
                    };
                    Landing::At { entry: e, kind }
                },
            }
        },
    }
}

// ---------------------------------------------------------------------------
// The records of a comparison
// ---------------------------------------------------------------------------

/// The entries that are gone.
pub open spec fn retired_of(
    snapshots: Seq<SnapshotView>,
    links: Seq<LinkView>,
    from: int,
    olds: Seq<EntryView>,
) -> Seq<CeilingView>
    decreases olds.len(),
{
    if olds.len() == 0 {
        Seq::empty()
    } else {
        let rest = retired_of(snapshots, links, from, olds.drop_last());
        match landing(snapshots, links, from, olds.last().address) {
            Some(_) => rest,
            None => rest.push(
                CeilingView { address: olds.last().address, value: olds.last().value },
            ),
        }
    }
}

/// The continuing entries whose ceiling rose (`up`) or fell.
pub open spec fn changed_of(
    snapshots: Seq<SnapshotView>,
    links: Seq<LinkView>,
    from: int,
    olds: Seq<EntryView>,
    up: bool,
) -> Seq<ChangeView>
    decreases olds.len(),
{
    if olds.len() == 0 {
        Seq::empty()
    } else {
        let rest = changed_of(snapshots, links, from, olds.drop_last(), up);
        match landing(snapshots, links, from, olds.last().address) {
            Some(b) => {
                let old_value = olds.last().value;
                let new_value = value_at(snapshots.last().entries, b);
                if (up && old_value < new_value) || (!up && old_value > new_value) {
                    rest.push(ChangeView { address: b, old_value, new_value })
                } else {
                    rest
                }
            },
            None => rest,
        }
    }
}

/// The continuing entries whose address changed.
pub open spec fn renamed_of(
    snapshots: Seq<SnapshotView>,
    links: Seq<LinkView>,
    from: int,
    olds: Seq<EntryView>,
) -> Seq<RenamedView>
    decreases olds.len(),
{
    if olds.len() == 0 {
        Seq::empty()
    } else {
        let rest = renamed_of(snapshots, links, from, olds.drop_last());
        let a = olds.last().address;
        match landing(snapshots, links, from, a) {
            Some(b) => if a != b {
                rest.push(
                    RenamedView {
                        kind: kind_of_move(snapshots, links, from, a, b),
                        old: a,
                        new: b,
                    },
                )
            } else {
                rest
            },
            None => rest,
        }
    }
}

/// Some entry of the first endpoint is the one at `b`.
pub open spec fn is_continued(
    snapshots: Seq<SnapshotView>,
    links: Seq<LinkView>,
    from: int,
    olds: Seq<EntryView>,
    b: AddressView,
) -> bool {
    exists|i: int|
        #![trigger olds[i]]
        0 <= i < olds.len() && landing(snapshots, links, from, olds[i].address) == Some(b)
}

/// The entries of the last endpoint that continue none of the first.
pub open spec fn added_of(
    snapshots: Seq<SnapshotView>,
    links: Seq<LinkView>,
    from: int,
    news: Seq<EntryView>,
) -> Seq<CeilingView>
    decreases news.len(),
{
    if news.len() == 0 {
        Seq::empty()
    } else {
        let rest = added_of(snapshots, links, from, news.drop_last());
        if is_continued(
            snapshots,
            links,
            from,
            snapshots[from].entries,
            news.last().address,
        ) {
            rest
        } else {
            rest.push(CeilingView { address: news.last().address, value: news.last().value })
        }
    }
}

/// The commit at which a deferred entry of the last endpoint first appeared.
pub open spec fn entry_since(
    snapshots: Seq<SnapshotView>,
    links: Seq<LinkView>,
    address: AddressView,
) -> SnapshotView {
    snapshots[first_seen::<EntryState>(snapshots, links, snapshots.len() - 1, address)]
}

/// The commit at which a finding of the last endpoint first appeared.
pub open spec fn finding_since(
    snapshots: Seq<SnapshotView>,
    links: Seq<LinkView>,
    finding: FindingView,
) -> SnapshotView {
    snapshots[first_seen::<FindingState>(
        snapshots,
        links,
        snapshots.len() - 1,
        finding.address,
    )]
}

/// The ages of the deferred entries.
pub open spec fn deferred_of(
    snapshots: Seq<SnapshotView>,
    links: Seq<LinkView>,
    news: Seq<EntryView>,
) -> Seq<DeferredAgeView>
    decreases news.len(),
{
    if news.len() == 0 {
        Seq::empty()
    } else {
        let rest = deferred_of(snapshots, links, news.drop_last());
        let entry = news.last();
        if entry.kind == Kind::Deferred {
            let since = entry_since(snapshots, links, entry.address);
            rest.push(
                DeferredAgeView {
                    entry: CeilingView { address: entry.address, value: entry.value },
                    first_seen_commit: since.sha,
                    first_seen_date: since.date,
                    age_days: days_between(since.timestamp, snapshots.last().timestamp),
                },
            )
        } else {
            rest
        }
    }
}

/// The age of a finding.
pub open spec fn finding_age(
    snapshots: Seq<SnapshotView>,
    links: Seq<LinkView>,
    finding: FindingView,
) -> FindingAgeView {
    let since = finding_since(snapshots, links, finding);
    FindingAgeView {
        finding,
        first_seen_commit: since.sha,
        first_seen_date: since.date,
        age_days: days_between(since.timestamp, snapshots.last().timestamp),
    }
}

/// The comparison of commit `from` with the last commit.
pub open spec fn history_of(
    snapshots: Seq<SnapshotView>,
    links: Seq<LinkView>,
    from: int,
) -> HistoryView {
    let olds = snapshots[from].entries;
    let news = snapshots.last().entries;
    HistoryView {
        from: snapshots[from].sha,
        to: snapshots.last().sha,
        added: added_of(snapshots, links, from, news),
        retired: retired_of(snapshots, links, from, olds),
        raised: changed_of(snapshots, links, from, olds, true),
        lowered: changed_of(snapshots, links, from, olds, false),
        renamed: renamed_of(snapshots, links, from, olds),
        deferred_ages: deferred_of(snapshots, links, news),
        soft_finding_ages: snapshots.last().findings.map_values(
            |finding: FindingView| finding_age(snapshots, links, finding),
        ),
    }
}

/// No entry of the first endpoint is split.
pub open spec fn none_split(
    snapshots: Seq<SnapshotView>,
    links: Seq<LinkView>,
    from: int,
    olds: Seq<EntryView>,
) -> bool {
    forall|i: int|
        #![trigger olds[i]]
        0 <= i < olds.len() ==> !is_split(snapshots, links, from, olds[i].address)
}

/// The first appearance is not later than the endpoint.
pub open spec fn is_aged(snapshots: Seq<SnapshotView>, since: SnapshotView) -> bool {
    is_elapsed(since.timestamp, snapshots.last().timestamp)
}

/// No deferred entry appeared after the endpoint.
pub open spec fn entries_aged(
    snapshots: Seq<SnapshotView>,
    links: Seq<LinkView>,
    news: Seq<EntryView>,
) -> bool {
    forall|i: int|
        #![trigger news[i]]
        0 <= i < news.len() && news[i].kind == Kind::Deferred ==> is_aged(
            snapshots,
            entry_since(snapshots, links, news[i].address),
        )
}

/// No finding appeared after the endpoint.
pub open spec fn findings_aged(
    snapshots: Seq<SnapshotView>,
    links: Seq<LinkView>,
    findings: Seq<FindingView>,
) -> bool {
    forall|i: int|
        #![trigger findings[i]]
        0 <= i < findings.len() ==> is_aged(
            snapshots,
            finding_since(snapshots, links, findings[i]),
        )
}

/// The comparison can be made.
pub open spec fn is_comparable(
    snapshots: Seq<SnapshotView>,
    links: Seq<LinkView>,
    from: int,
) -> bool {
    &&& none_split(snapshots, links, from, snapshots[from].entries)
    &&& entries_aged(snapshots, links, snapshots.last().entries)
    &&& findings_aged(snapshots, links, snapshots.last().findings)
}

/// The refusal of a comparison: of the first entry that is split, or else of
/// an age that is negative.
pub open spec fn is_comparison_error(
    range: Text,
    snapshots: Seq<SnapshotView>,
    links: Seq<LinkView>,
    from: int,
    error: HistoryErrorView,
) -> bool {
    let olds = snapshots[from].entries;
    if none_split(snapshots, links, from, olds) {
        error == failure(range, "first-seen timestamp is later than the endpoint"@)
    } else {
        exists|i: int|
            #![trigger olds[i]]
            {
                &&& 0 <= i < olds.len()
                &&& is_split(snapshots, links, from, olds[i].address)
                &&& none_split(snapshots, links, from, olds.take(i))
                &&& error == failure(range, ambiguous_at(olds[i].address.path))
            }
    }
}

/// What became of the entries of the first endpoint.
struct Moves {
    retired: Vec<Ceiling>,
    raised: Vec<CeilingChange>,
    lowered: Vec<CeilingChange>,
    renamed: Vec<Renamed>,
    kept: Vec<Address>,
}

impl Moves {
    spec fn are_of(
        &self,
        snapshots: Seq<SnapshotView>,
        links: Seq<LinkView>,
        from: int,
        olds: Seq<EntryView>,
    ) -> bool {
        &&& self.retired.deep_view() == retired_of(snapshots, links, from, olds)
        &&& self.raised.deep_view() == changed_of(snapshots, links, from, olds, true)
        &&& self.lowered.deep_view() == changed_of(snapshots, links, from, olds, false)
        &&& self.renamed.deep_view() == renamed_of(snapshots, links, from, olds)
        &&& forall|b: AddressView| #[trigger]
            self.kept.deep_view().contains(b) <==> is_continued(snapshots, links, from, olds, b)
    }
}

proof fn lemma_continued_push(
    snapshots: Seq<SnapshotView>,
    links: Seq<LinkView>,
    from: int,
    olds: Seq<EntryView>,
    last: EntryView,
    b: AddressView,
)
    ensures
        is_continued(snapshots, links, from, olds.push(last), b) <==> is_continued(
            snapshots,
            links,
            from,
            olds,
            b,
        ) || landing(snapshots, links, from, last.address) == Some(b),
{
    let more = olds.push(last);
    if is_continued(snapshots, links, from, olds, b) {
        let i = choose|i: int|
            #![trigger olds[i]]
            0 <= i < olds.len() && landing(snapshots, links, from, olds[i].address) == Some(b);
        assert(more[i] == olds[i]);
    }
    assert(more[olds.len() as int] == last);
    if is_continued(snapshots, links, from, more, b) {
        let i = choose|i: int|
            #![trigger more[i]]
            0 <= i < more.len() && landing(snapshots, links, from, more[i].address) == Some(b);
        if i < olds.len() {
            assert(olds[i] == more[i]);
        }
    }
}

/// Records an entry that is gone.
fn record_retired(
    moves: &mut Moves,
    was: &EntryState,
    Ghost(snapshots): Ghost<Seq<SnapshotView>>,
    Ghost(links): Ghost<Seq<LinkView>>,
    Ghost(from): Ghost<int>,
    Ghost(olds): Ghost<Seq<EntryView>>,
)
    requires
        old(moves).are_of(snapshots, links, from, olds),
        landing(snapshots, links, from, was@.address) is None,
    ensures
        final(moves).are_of(snapshots, links, from, olds.push(was@)),
{
    let ghost more = olds.push(was@);
    let ghost before = moves.retired.deep_view();
    moves.retired.push(Ceiling { address: was.address.clone(), value: was.value });
    proof {
        assert(more.drop_last() =~= olds);
        assert(moves.retired.deep_view() =~= before.push(
            CeilingView { address: was@.address, value: was@.value },
        ));
        assert forall|b: AddressView| #[trigger]
            moves.kept.deep_view().contains(b) <==> is_continued(
                snapshots,
                links,
                from,
                more,
                b,
            ) by {
            lemma_continued_push(snapshots, links, from, olds, was@, b);
        }
    }
}

/// Records an entry that continues.
fn record_kept(
    moves: &mut Moves,
    was: &EntryState,
    next: &EntryState,
    kind: MovementKind,
    Ghost(snapshots): Ghost<Seq<SnapshotView>>,
    Ghost(links): Ghost<Seq<LinkView>>,
    Ghost(from): Ghost<int>,
    Ghost(olds): Ghost<Seq<EntryView>>,
)
    requires
        old(moves).are_of(snapshots, links, from, olds),
        landing(snapshots, links, from, was@.address) == Some(next@.address),
        value_at(snapshots.last().entries, next@.address) == next@.value,
        kind == kind_of_move(snapshots, links, from, was@.address, next@.address),
    ensures
        final(moves).are_of(snapshots, links, from, olds.push(was@)),
{
    let ghost more = olds.push(was@);
    let ghost raised = moves.raised.deep_view();
    let ghost lowered = moves.lowered.deep_view();
    let ghost renamed = moves.renamed.deep_view();
    let ghost kept = moves.kept.deep_view();
    let ghost change = ChangeView {
        address: next@.address,
        old_value: was@.value,
        new_value: next@.value,
    };
    moves.kept.push(next.address.clone());
    if was.value < next.value {
        moves.raised.push(
            CeilingChange {
                address: next.address.clone(),
                old_value: was.value,
                new_value: next.value,
            },
        );
        assert(moves.raised.deep_view() =~= raised.push(change));
    } else if was.value > next.value {
        moves.lowered.push(
            CeilingChange {
                address: next.address.clone(),
                old_value: was.value,
                new_value: next.value,
            },
        );
        assert(moves.lowered.deep_view() =~= lowered.push(change));
    }
    if !was.address.equals(&next.address) {
        moves.renamed.push(
            Renamed { kind, old: was.address.clone(), new: next.address.clone() },
        );
        assert(moves.renamed.deep_view() =~= renamed.push(
            RenamedView { kind, old: was@.address, new: next@.address },
        ));
    }
    proof {
        assert(more.drop_last() =~= olds);
        let now = moves.kept.deep_view();
        assert(now =~= kept.push(next@.address));
        assert forall|b: AddressView| #[trigger]
            now.contains(b) <==> is_continued(snapshots, links, from, more, b) by {
            lemma_continued_push(snapshots, links, from, olds, was@, b);
            if kept.contains(b) {
                let i = choose|i: int| 0 <= i < kept.len() && kept[i] == b;
                assert(now[i] == b);
            }
            assert(now[kept.len() as int] == next@.address);
            if now.contains(b) {
                let i = choose|i: int| 0 <= i < now.len() && now[i] == b;
                if i < kept.len() {
                    assert(kept[i] == b);
                }
            }
        }
    }
}

/// What became of the entries of the first endpoint.
fn move_entries(
    snapshots: &Vec<Snapshot>,
    transitions: &Transitions,
    from: usize,
    range: &str,
) -> (r: Result<Moves, HistoryError>)
    requires
        from < snapshots@.len(),
    ensures
        match r {
            Ok(moves) => {
                &&& none_split(
                    snapshots.deep_view(),
                    transitions@,
                    from as int,
                    snapshots.deep_view()[from as int].entries,
                )
                &&& moves.are_of(
                    snapshots.deep_view(),
                    transitions@,
                    from as int,
                    snapshots.deep_view()[from as int].entries,
                )
            },
            Err(error) => {
                &&& !none_split(
                    snapshots.deep_view(),
                    transitions@,
                    from as int,
                    snapshots.deep_view()[from as int].entries,
                )
                &&& is_comparison_error(
                    range@,
                    snapshots.deep_view(),
                    transitions@,
                    from as int,
                    error@,
                )
            },
        },
{
    let ghost all = snapshots.deep_view();
    let ghost links = transitions@;
    let n: usize = snapshots.len();
    let ghost olds = all[from as int].entries;
    assert(all[from as int] == snapshots@[from as int]@);
    assert(all.last() == snapshots@[n - 1]@);
    let mut moves = Moves {
        retired: Vec::new(),
        raised: Vec::new(),
        lowered: Vec::new(),
        renamed: Vec::new(),
        kept: Vec::new(),
    };
    let mut i: usize = 0;
    proof {
        assert(moves.retired.deep_view() =~= Seq::empty());
        assert(moves.raised.deep_view() =~= Seq::empty());
        assert(moves.lowered.deep_view() =~= Seq::empty());
        assert(moves.renamed.deep_view() =~= Seq::empty());
        assert(olds.take(0) =~= Seq::empty());
        assert(moves.are_of(all, links, from as int, olds.take(0)));
    }
    while i < snapshots[from].entries.len()
        invariant
            from < n,
            n == snapshots@.len(),
            all == snapshots.deep_view(),
            links == transitions@,
            all[from as int] == snapshots@[from as int]@,
            all.last() == snapshots@[n - 1]@,
            olds == all[from as int].entries,
            i <= olds.len(),
            moves.are_of(all, links, from as int, olds.take(i as int)),
            none_split(all, links, from as int, olds.take(i as int)),
        decreases olds.len() - i,
    {
        let old = &snapshots[from].entries[i];
        assert(olds[i as int] == old@);
        assert(olds.take(i + 1) =~= olds.take(i as int).push(old@));
        match land(snapshots, transitions, from, &old.address) {
            Landing::Nowhere => {
                record_retired(
                    &mut moves,
                    old,
                    Ghost(all),
                    Ghost(links),
                    Ghost(from as int),
                    Ghost(olds.take(i as int)),
                );
            },
            Landing::At { entry, kind } => {
                let new = &snapshots[n - 1].entries[entry];
                assert(all.last().entries[entry as int] == new@);
                record_kept(
                    &mut moves,
                    old,
                    new,
                    kind,
                    Ghost(all),
                    Ghost(links),
                    Ghost(from as int),
                    Ghost(olds.take(i as int)),
                );
            },
            Landing::Split => {
                let mut cause = "ambiguous rename evidence for ".to_owned();
                cause.append(old.address.path.as_str());
                assert(!none_split(all, links, from as int, olds));
                return Err(HistoryError::new(range, cause));
            },
        }
        proof {
            let now = olds.take(i + 1);
            assert forall|k: int| #![trigger now[k]] 0 <= k < now.len() implies !is_split(
                all,
                links,
                from as int,
                now[k].address,
            ) by {
                if k < i {
                    assert(olds.take(i as int)[k] == now[k]);
                }
            }
        }
        i += 1;
    }
    assert(olds.take(i as int) =~= olds);
    Ok(moves)
}

fn holds_address(list: &Vec<Address>, address: &Address) -> (r: bool)
    ensures
        r == list.deep_view().contains(address@),
{
    let ghost all = list.deep_view();
    let mut i: usize = 0;
    while i < list.len()
        invariant
            i <= list@.len(),
            all == list.deep_view(),
            forall|j: int| #![trigger all[j]] 0 <= j < i ==> all[j] != address@,
        decreases list@.len() - i,
    {
        assert(all[i as int] == list@[i as int]@);
        if list[i].equals(address) {
            assert(all.contains(address@));
            return true;
        }
        i += 1;
    }
    false
}

fn added_entries(
    entries: &Vec<EntryState>,
    kept: &Vec<Address>,
    Ghost(snapshots): Ghost<Seq<SnapshotView>>,
    Ghost(links): Ghost<Seq<LinkView>>,
    Ghost(from): Ghost<int>,
) -> (r: Vec<Ceiling>)
    requires
        forall|b: AddressView| #[trigger]
            kept.deep_view().contains(b) <==> is_continued(
                snapshots,
                links,
                from,
                snapshots[from].entries,
                b,
            ),
    ensures
        r.deep_view() == added_of(snapshots, links, from, entries.deep_view()),
{
    let ghost all = entries.deep_view();
    let mut r: Vec<Ceiling> = Vec::new();
    let mut i: usize = 0;
    assert(r.deep_view() =~= added_of(snapshots, links, from, all.take(0)));
    while i < entries.len()
        invariant
            i <= entries@.len(),
            all == entries.deep_view(),
            forall|b: AddressView| #[trigger]
                kept.deep_view().contains(b) <==> is_continued(
                    snapshots,
                    links,
                    from,
                    snapshots[from].entries,
                    b,
                ),
            r.deep_view() == added_of(snapshots, links, from, all.take(i as int)),
        decreases entries@.len() - i,
    {
        assert(all.take(i + 1).drop_last() =~= all.take(i as int));
        assert(all.take(i + 1).last() == entries@[i as int]@);
        if !holds_address(kept, &entries[i].address) {
            let ghost here = r.deep_view();
            r.push(Ceiling { address: entries[i].address.clone(), value: entries[i].value });
            assert(r.deep_view() =~= here.push(
                CeilingView {
                    address: entries@[i as int]@.address,
                    value: entries@[i as int]@.value,
                },
            ));
        }
        i += 1;
    }
    assert(all.take(i as int) =~= all);
    r
}

fn deferred_ages(snapshots: &Vec<Snapshot>, transitions: &Transitions, range: &str) -> (r: Result<
    Vec<DeferredAge>,
    HistoryError,
>)
    requires
        snapshots@.len() > 0,
    ensures
        match r {
            Ok(ages) => {
                &&& entries_aged(
                    snapshots.deep_view(),
                    transitions@,
                    snapshots.deep_view().last().entries,
                )
                &&& ages.deep_view() == deferred_of(
                    snapshots.deep_view(),
                    transitions@,
                    snapshots.deep_view().last().entries,
                )
            },
            Err(error) => {
                &&& !entries_aged(
                    snapshots.deep_view(),
                    transitions@,
                    snapshots.deep_view().last().entries,
                )
                &&& error@ == failure(range@, "first-seen timestamp is later than the endpoint"@)
            },
        },
{
    let ghost all = snapshots.deep_view();
    let ghost links = transitions@;
    let places = entry_ages(snapshots, transitions);
    let to = &snapshots[snapshots.len() - 1];
    let ghost news = all.last().entries;
    assert(all.last() == to@);
    let mut r: Vec<DeferredAge> = Vec::new();
    let mut i: usize = 0;
    assert(r.deep_view() =~= deferred_of(all, links, news.take(0)));
    while i < to.entries.len()
        invariant
            all == snapshots.deep_view(),
            links == transitions@,
            all.last() == to@,
            all.len() > 0,
            news == all.last().entries,
            i <= news.len(),
            places@.len() == news.len(),
            forall|j: int|
                #![trigger places@[j]]
                0 <= j < places@.len() ==> places@[j] < snapshots@.len() && (news[j].kind
                    == Kind::Deferred ==> places@[j] == first_seen::<EntryState>(
                    all,
                    links,
                    snapshots@.len() - 1,
                    news[j].address,
                )),
            forall|j: int|
                #![trigger news[j]]
                0 <= j < i && news[j].kind == Kind::Deferred ==> is_aged(
                    all,
                    entry_since(all, links, news[j].address),
                ),
            r.deep_view() == deferred_of(all, links, news.take(i as int)),
        decreases news.len() - i,
    {
        assert(news.take(i + 1).drop_last() =~= news.take(i as int));
        assert(news.take(i + 1).last() == to.entries@[i as int]@);
        assert(news[i as int] == to.entries@[i as int]@);
        let entry = &to.entries[i];
        if entry.kind == Kind::Deferred {
            let first = &snapshots[places[i]];
            assert(all[places@[i as int] as int] == first@);
            assert(entry_since(all, links, news[i as int].address) == first@);
            match age_days(first.timestamp, to.timestamp, range) {
                Ok(age_days) => {
                    let ghost here = r.deep_view();
                    let age = DeferredAge {
                        entry: Ceiling { address: entry.address.clone(), value: entry.value },
                        first_seen_commit: first.sha.clone(),
                        first_seen_date: first.date.clone(),
                        age_days,
                    };
                    let ghost shown = age@;
                    r.push(age);
                    assert(r.deep_view() =~= here.push(shown));
                },
                Err(error) => {
                    assert(!entries_aged(all, links, news));
                    return Err(error);
                },
            }
        }
        i += 1;
    }
    assert(news.take(i as int) =~= news);
    Ok(r)
}

fn soft_finding_ages(
    snapshots: &Vec<Snapshot>,
    transitions: &Transitions,
    range: &str,
) -> (r: Result<Vec<FindingAge>, HistoryError>)
    requires
        snapshots@.len() > 0,
    ensures
        match r {
            Ok(ages) => {
                &&& findings_aged(
                    snapshots.deep_view(),
                    transitions@,
                    snapshots.deep_view().last().findings,
                )
                &&& ages.deep_view() == snapshots.deep_view().last().findings.map_values(
                    |finding: FindingView|
                        finding_age(snapshots.deep_view(), transitions@, finding),
                )
            },
            Err(error) => {
                &&& !findings_aged(
                    snapshots.deep_view(),
                    transitions@,
                    snapshots.deep_view().last().findings,
                )
                &&& error@ == failure(range@, "first-seen timestamp is later than the endpoint"@)
            },
        },
{
    let ghost all = snapshots.deep_view();
    let ghost links = transitions@;
    let places = finding_ages(snapshots, transitions);
    let to = &snapshots[snapshots.len() - 1];
    let ghost findings = all.last().findings;
    assert(all.last() == to@);
    let mut r: Vec<FindingAge> = Vec::new();
    let mut i: usize = 0;
    while i < to.findings.len()
        invariant
            all == snapshots.deep_view(),
            links == transitions@,
            all.last() == to@,
            all.len() > 0,
            findings == all.last().findings,
            i <= findings.len(),
            places@.len() == findings.len(),
            forall|j: int|
                #![trigger places@[j]]
                0 <= j < places@.len() ==> places@[j] < snapshots@.len() && places@[j]
                    == first_seen::<FindingState>(
                    all,
                    links,
                    snapshots@.len() - 1,
                    findings[j].address,
                ),
            forall|j: int|
                #![trigger findings[j]]
                0 <= j < i ==> is_aged(all, finding_since(all, links, findings[j])),
            r@.len() == i,
            forall|j: int|
                #![trigger r@[j]]
                0 <= j < i ==> r@[j]@ == finding_age(all, links, findings[j]),
        decreases findings.len() - i,
    {
        assert(findings[i as int] == to.findings@[i as int]@);
        let finding = &to.findings[i];
        let first = &snapshots[places[i]];
        assert(all[places@[i as int] as int] == first@);
        assert(finding_since(all, links, findings[i as int]) == first@);
        match age_days(first.timestamp, to.timestamp, range) {
            Ok(age_days) => {
                r.push(
                    FindingAge {
                        finding: finding.clone(),
                        first_seen_commit: first.sha.clone(),
                        first_seen_date: first.date.clone(),
                        age_days,
                    },
                );
            },
            Err(error) => {
                assert(!findings_aged(all, links, findings));
                return Err(error);
            },
        }
        i += 1;
    }
    assert(r.deep_view() =~= findings.map_values(
        |finding: FindingView| finding_age(all, links, finding),
    ));
    Ok(r)
}

/// Compares commit `from_index` with the last commit.
pub fn classify(
    snapshots: &Vec<Snapshot>,
    transitions: &Transitions,
    from_index: usize,
    range: &str,
) -> (r: Result<History, HistoryError>)
    requires
        from_index < snapshots@.len(),
    ensures
        match r {
            Ok(history) => {
                &&& is_comparable(snapshots.deep_view(), transitions@, from_index as int)
                &&& history@ == history_of(snapshots.deep_view(), transitions@, from_index as int)
            },
            Err(error) => {
                &&& !is_comparable(snapshots.deep_view(), transitions@, from_index as int)
                &&& is_comparison_error(
                    range@,
                    snapshots.deep_view(),
                    transitions@,
                    from_index as int,
                    error@,
                )
            },
        },
{
    let ghost all = snapshots.deep_view();
    let moves = match move_entries(snapshots, transitions, from_index, range) {
        Ok(moves) => moves,
        Err(error) => {
            return Err(error);
        },
    };
    let from = &snapshots[from_index];
    let to = &snapshots[snapshots.len() - 1];
    assert(all[from_index as int] == from@);
    assert(all.last() == to@);
    let added = added_entries(
        &to.entries,
        &moves.kept,
        Ghost(all),
        Ghost(transitions@),
        Ghost(from_index as int),
    );
    let deferred_ages = match deferred_ages(snapshots, transitions, range) {
        Ok(ages) => ages,
        Err(error) => {
            return Err(error);
        },
    };
    let soft_finding_ages = match soft_finding_ages(snapshots, transitions, range) {
        Ok(ages) => ages,
        Err(error) => {
            return Err(error);
        },
    };
    Ok(
        History {
            from: from.sha.clone(),
            to: to.sha.clone(),
            added,
            retired: moves.retired,
            raised: moves.raised,
            lowered: moves.lowered,
            renamed: moves.renamed,
            deferred_ages,
            soft_finding_ages,
        },
    )
}

// ---------------------------------------------------------------------------
// The report
// ---------------------------------------------------------------------------

/// Every array of the report is sorted; records in the same place keep their
/// order.
pub open spec fn is_sorted_report(before: History, after: History) -> bool {
    &&& after.from@ == before.from@
    &&& after.to@ == before.to@
    &&& is_stable_sort(before.added@, after.added@)
    &&& is_stable_sort(before.retired@, after.retired@)
    &&& is_stable_sort(before.raised@, after.raised@)
    &&& is_stable_sort(before.lowered@, after.lowered@)
    &&& is_stable_sort(before.renamed@, after.renamed@)
    &&& is_stable_sort(before.deferred_ages@, after.deferred_ages@)
    &&& is_stable_sort(before.soft_finding_ages@, after.soft_finding_ages@)
}

/// Sorts every array of the report.
pub fn sort_history(history: &mut History)
    ensures
        is_sorted_report(*old(history), *final(history)),
{
    sort(&mut history.added);
    sort(&mut history.retired);
    sort(&mut history.raised);
    sort(&mut history.lowered);
    sort(&mut history.renamed);
    sort(&mut history.deferred_ages);
    sort(&mut history.soft_finding_ages);
}

/// The commit is the first with its name.
pub open spec fn is_first_named(revisions: Seq<RevisionView>, sha: Text, i: int) -> bool {
    &&& 0 <= i < revisions.len()
    &&& revisions[i].sha == sha
    &&& forall|j: int| #![trigger revisions[j]] 0 <= j < i ==> revisions[j].sha != sha
}

/// The place of the first endpoint in the walk from the last one.
pub fn from_index(repository: &Repository, revisions: &Vec<Revision>, from: &str) -> (r: Result<
    usize,
    HistoryError,
>)
    ensures
        match r {
            Ok(i) => is_first_named(revisions.deep_view(), from@, i as int),
            Err(error) => {
                &&& forall|i: int|
                    #![trigger revisions.deep_view()[i]]
                    0 <= i < revisions@.len() ==> revisions.deep_view()[i].sha != from@
                &&& error@ == failure(repository.range@, "comparison ancestry is unavailable"@)
            },
        },
{
    let ghost all = revisions.deep_view();
    let mut i: usize = 0;
    while i < revisions.len()
        invariant
            i <= revisions@.len(),
            all == revisions.deep_view(),
            forall|j: int| #![trigger all[j]] 0 <= j < i ==> all[j].sha != from@,
        decreases revisions@.len() - i,
    {
        assert(all[i as int] == revisions@[i as int]@);
        if same(revisions[i].sha.as_str(), from) {
            return Ok(i);
        }
        i += 1;
    }
    Err(
        HistoryError::new(
            repository.range.as_str(),
            "comparison ancestry is unavailable".to_owned(),
        ),
    )
}

/// The commits at which the debt of a report first appeared: of the deferred
/// entries, then of the findings.
pub open spec fn appearances(h: HistoryView) -> Seq<Text> {
    h.deferred_ages.map_values(|age: DeferredAgeView| age.first_seen_commit)
        + h.soft_finding_ages.map_values(|age: FindingAgeView| age.first_seen_commit)
}

/// No appearance is a commit whose parents are cut off.
pub open spec fn is_proven(h: HistoryView, boundaries: Seq<Text>) -> bool {
    let commits = appearances(h);
    forall|i: int| #![trigger commits[i]] 0 <= i < commits.len() ==> !boundaries.contains(commits[i])
}

/// The refusal of a report whose debt may be older than what can be seen.
pub open spec fn is_boundary_error(
    range: Text,
    h: HistoryView,
    boundaries: Seq<Text>,
    error: HistoryErrorView,
) -> bool {
    let commits = appearances(h);
    exists|i: int|
        #![trigger commits[i]]
        {
            &&& 0 <= i < commits.len()
            &&& boundaries.contains(commits[i])
            &&& forall|j: int|
                #![trigger commits[j]]
                0 <= j < i ==> !boundaries.contains(commits[j])
            &&& error == failure_at(
                range,
                commits[i],
                "history before the shallow boundary is unavailable"@,
            )
        }
}

/// The first of the appearances that is a boundary.
fn reached_boundary(history: &History, boundaries: &Vec<String>) -> (r: Option<String>)
    ensures
        match r {
            Some(commit) => exists|i: int|
                #![trigger appearances(history@)[i]]
                {
                    &&& 0 <= i < appearances(history@).len()
                    &&& commit@ == appearances(history@)[i]
                    &&& boundaries.deep_view().contains(commit@)
                    &&& forall|j: int|
                        #![trigger appearances(history@)[j]]
                        0 <= j < i ==> !boundaries.deep_view().contains(appearances(history@)[j])
                },
            None => is_proven(history@, boundaries.deep_view()),
        },
{
    let ghost commits = appearances(history@);
    let ghost cut = boundaries.deep_view();
    let n: usize = history.deferred_ages.len();
    let mut i: usize = 0;
    while i < history.deferred_ages.len()
        invariant
            i <= n,
            n == history.deferred_ages@.len(),
            commits == appearances(history@),
            cut == boundaries.deep_view(),
            forall|j: int| #![trigger commits[j]] 0 <= j < i ==> !cut.contains(commits[j]),
        decreases n - i,
    {
        assert(commits[i as int] == history.deferred_ages@[i as int]@.first_seen_commit);
        if holds_text(boundaries, &history.deferred_ages[i].first_seen_commit) {
            return Some(history.deferred_ages[i].first_seen_commit.clone());
        }
        i += 1;
    }
    let mut k: usize = 0;
    while k < history.soft_finding_ages.len()
        invariant
            k <= history.soft_finding_ages@.len(),
            n == history.deferred_ages@.len(),
            commits == appearances(history@),
            cut == boundaries.deep_view(),
            forall|j: int| #![trigger commits[j]] 0 <= j < n + k ==> !cut.contains(commits[j]),
        decreases history.soft_finding_ages@.len() - k,
    {
        assert(commits[n + k] == history.soft_finding_ages@[k as int]@.first_seen_commit);
        if holds_text(boundaries, &history.soft_finding_ages[k].first_seen_commit) {
            return Some(history.soft_finding_ages[k].first_seen_commit.clone());
        }
        k += 1;
    }
    None
}

/// The report is the comparison, sorted.
pub open spec fn is_report(
    snapshots: Seq<SnapshotView>,
    links: Seq<LinkView>,
    from: int,
    report: History,
) -> bool {
    exists|unsorted: History| #[trigger]
        is_sorted_report(unsorted, report) && unsorted@ == history_of(snapshots, links, from)
}

/// Compares commit `from_index` with the last commit and reports. The
/// comparison is refused where it cannot be made, where the boundaries are not
/// known, and where debt first appears at one of them.
pub fn evaluate(
    repository: &Repository,
    snapshots: &Vec<Snapshot>,
    transitions: &Transitions,
    from_index: usize,
    boundaries: Result<Vec<String>, HistoryError>,
) -> (r: Result<History, HistoryError>)
    requires
        from_index < snapshots@.len(),
    ensures
        ({
            let all = snapshots.deep_view();
            let links = transitions@;
            let from = from_index as int;
            if !is_comparable(all, links, from) {
                r matches Err(error) && is_comparison_error(
                    repository.range@,
                    all,
                    links,
                    from,
                    error@,
                )
            } else {
                match boundaries {
                    Err(refusal) => r matches Err(error) && error@ == refusal@,
                    Ok(cut) => if is_proven(history_of(all, links, from), cut.deep_view()) {
                        r matches Ok(report) && is_report(all, links, from, report)
                    } else {
                        r matches Err(error) && is_boundary_error(
                            repository.range@,
                            history_of(all, links, from),
                            cut.deep_view(),
                            error@,
                        )
                    },
                }
            }
        }),
{
    let mut history = match classify(
        snapshots,
        transitions,
        from_index,
        repository.range.as_str(),
    ) {
        Ok(history) => history,
        Err(error) => {
            return Err(error);
        },
    };
    let cut = match boundaries {
        Ok(cut) => cut,
        Err(error) => {
            return Err(error);
        },
    };
    match reached_boundary(&history, &cut) {
        Some(commit) => {
            return Err(
                repository.error_at(
                    commit.as_str(),
                    "history before the shallow boundary is unavailable",
                ),
            );
        },
        None => {},
    }
    let ghost unsorted = history;
    sort_history(&mut history);
    assert(is_sorted_report(unsorted, history));
    Ok(history)
}

} // verus!
