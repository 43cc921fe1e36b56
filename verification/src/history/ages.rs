//! How long a state has stood. An age begins at the first commit of the
//! current continuous state: a state is inherited only when every parent had
//! it.

use vstd::prelude::*;
use vstd::string::*;

use super::ancestry::{descends, is_ancestor};
use super::data::{
    AddressView, EntryState, EntryView, FindingAddressView, FindingState, FindingView, Snapshot,
    SnapshotView,
};
use super::error::{failure, HistoryError};
use super::identity::{mapped_address, mapped_finding, Transition, TransitionView};
use super::transitions::{evidence_for, find_place, place_of, LinkView, Transitions};
use crate::exceptions::Kind;
use crate::text::Text;

verus! {

/// A state that commits have and that is followed from one to the next.
pub trait Traced: Sized + DeepView {
    /// What makes a state of one commit the same as one of another.
    type Key;

    /// The states of a commit.
    spec fn states(s: SnapshotView) -> Seq<Self::V>;

    spec fn key(state: Self::V) -> Self::Key;

    /// The state has an age.
    spec fn has_age(state: Self::V) -> bool;

    /// Where the key goes from a commit to the next.
    spec fn carried(t: TransitionView, key: Self::Key) -> Self::Key;

    fn list(s: &Snapshot) -> (r: &Vec<Self>)
        ensures
            r.deep_view() == Self::states(s@),
    ;

    fn counts(&self) -> (r: bool)
        ensures
            r == Self::has_age(self.deep_view()),
    ;

    fn same_key(&self, other: &Self) -> (r: bool)
        ensures
            r == (Self::key(self.deep_view()) == Self::key(other.deep_view())),
    ;

    fn goes_to(&self, t: &Transition, other: &Self) -> (r: bool)
        ensures
            r == (Self::carried(t@, Self::key(self.deep_view())) == Self::key(other.deep_view())),
    ;
}

impl Traced for EntryState {
    type Key = AddressView;

    open spec fn states(s: SnapshotView) -> Seq<EntryView> {
        s.entries
    }

    open spec fn key(state: EntryView) -> AddressView {
        state.address
    }

    /// Only a deferred entry has an age.
    open spec fn has_age(state: EntryView) -> bool {
        state.kind == Kind::Deferred
    }

    open spec fn carried(t: TransitionView, key: AddressView) -> AddressView {
        mapped_address(t, key).0
    }

    fn list(s: &Snapshot) -> (r: &Vec<Self>) {
        &s.entries
    }

    fn counts(&self) -> (r: bool) {
        self.kind == Kind::Deferred
    }

    fn same_key(&self, other: &Self) -> (r: bool) {
        self.address.equals(&other.address)
    }

    fn goes_to(&self, t: &Transition, other: &Self) -> (r: bool) {
        let (mapped, _) = t.map_address(&self.address);
        mapped.equals(&other.address)
    }
}

impl Traced for FindingState {
    type Key = FindingAddressView;

    open spec fn states(s: SnapshotView) -> Seq<FindingView> {
        s.findings
    }

    open spec fn key(state: FindingView) -> FindingAddressView {
        state.address
    }

    open spec fn has_age(state: FindingView) -> bool {
        true
    }

    open spec fn carried(t: TransitionView, key: FindingAddressView) -> FindingAddressView {
        mapped_finding(t, key)
    }

    fn list(s: &Snapshot) -> (r: &Vec<Self>) {
        &s.findings
    }

    fn counts(&self) -> (r: bool) {
        true
    }

    fn same_key(&self, other: &Self) -> (r: bool) {
        self.address.equals(&other.address)
    }

    fn goes_to(&self, t: &Transition, other: &Self) -> (r: bool) {
        let mapped = t.map_finding(&self.address);
        mapped.equals(&other.address)
    }
}

// ---------------------------------------------------------------------------
// First appearance
// ---------------------------------------------------------------------------

/// The commit has the state.
pub open spec fn has_state<S: Traced>(states: Seq<S::V>, key: S::Key) -> bool {
    exists|j: int|
        #![trigger states[j]]
        0 <= j < states.len() && S::has_age(states[j]) && S::key(states[j]) == key
}

/// The first of the states that the evidence carries to `key`; it is also one
/// of the `known` states.
pub open spec fn predecessor<S: Traced>(
    states: Seq<S::V>,
    known: Seq<S::V>,
    t: TransitionView,
    key: S::Key,
) -> Option<S::Key>
    decreases states.len(),
{
    if states.len() == 0 {
        None
    } else if S::has_age(states[0]) && S::carried(t, S::key(states[0])) == key && has_state::<S>(
        known,
        S::key(states[0]),
    ) {
        Some(S::key(states[0]))
    } else {
        predecessor::<S>(states.drop_first(), known, t, key)
    }
}

/// The parent's state that goes to `key` at commit `i`, and the parent's
/// place, where the parent has one.
pub open spec fn inherited<S: Traced>(
    snapshots: Seq<SnapshotView>,
    links: Seq<LinkView>,
    i: int,
    parent: Text,
    key: S::Key,
) -> Option<(int, S::Key)> {
    match (
        place_of(snapshots, parent),
        place_of(snapshots.take(i), parent),
        evidence_for(links, parent, snapshots[i].sha),
    ) {
        (Some(named), Some(earlier), Some(t)) => match predecessor::<S>(
            S::states(snapshots[named]),
            S::states(snapshots[earlier]),
            t,
            key,
        ) {
            Some(previous) => Some((earlier, previous)),
            None => None,
        },
        _ => None,
    }
}

/// The place of the commit at which the state of commit `i` first appeared.
pub open spec fn first_seen<S: Traced>(
    snapshots: Seq<SnapshotView>,
    links: Seq<LinkView>,
    i: int,
    key: S::Key,
) -> int
    decreases i, snapshots[i].parents.len() + 1,
{
    match first_seen_of_parents::<S>(snapshots, links, i, key, snapshots[i].parents.len() as int) {
        Some(places) => match latest_of(snapshots, places, 0) {
            Some(place) => place,
            None => i,
        },
        None => i,
    }
}

/// The same for the first `n` parents of commit `i`; nothing where one of them
/// has no such state.
pub open spec fn first_seen_of_parents<S: Traced>(
    snapshots: Seq<SnapshotView>,
    links: Seq<LinkView>,
    i: int,
    key: S::Key,
    n: int,
) -> Option<Seq<int>>
    decreases i, n,
{
    if n <= 0 {
        Some(Seq::empty())
    } else {
        match first_seen_of_parents::<S>(snapshots, links, i, key, n - 1) {
            Some(places) => match inherited::<S>(
                snapshots,
                links,
                i,
                snapshots[i].parents[n - 1],
                key,
            ) {
                Some((k, previous)) => if 0 <= k < i {
                    Some(places.push(first_seen::<S>(snapshots, links, k, previous)))
                } else {
                    None
                },
                None => None,
            },
            None => None,
        }
    }
}

/// Every one of the commits is the commit at `place` or an ancestor of it.
pub open spec fn is_latest(snapshots: Seq<SnapshotView>, places: Seq<int>, place: int) -> bool {
    forall|k: int|
        #![trigger places[k]]
        0 <= k < places.len() ==> descends(
            snapshots,
            snapshots[places[k]].sha,
            snapshots[place].sha,
        )
}

/// The first of the commits, from `from` on, of which all are ancestors.
pub open spec fn latest_of(
    snapshots: Seq<SnapshotView>,
    places: Seq<int>,
    from: int,
) -> Option<int>
    decreases places.len() - from,
{
    if from >= places.len() {
        None
    } else if is_latest(snapshots, places, places[from]) {
        Some(places[from])
    } else {
        latest_of(snapshots, places, from + 1)
    }
}

/// Places as numbers.
pub open spec fn as_places(places: Seq<usize>) -> Seq<int> {
    places.map_values(|place: usize| place as int)
}

fn holds_all(snapshots: &Vec<Snapshot>, places: &Vec<usize>, place: usize) -> (r: bool)
    requires
        place < snapshots@.len(),
        forall|k: int| #![trigger places@[k]] 0 <= k < places@.len() ==> places@[k] < snapshots@.len(),
    ensures
        r == is_latest(snapshots.deep_view(), as_places(places@), place as int),
{
    let ghost all = snapshots.deep_view();
    let ghost given = as_places(places@);
    let mut i: usize = 0;
    while i < places.len()
        invariant
            i <= places@.len(),
            place < snapshots@.len(),
            forall|k: int|
                #![trigger places@[k]]
                0 <= k < places@.len() ==> places@[k] < snapshots@.len(),
            all == snapshots.deep_view(),
            given == as_places(places@),
            forall|k: int|
                #![trigger given[k]]
                0 <= k < i ==> descends(all, all[given[k]].sha, all[place as int].sha),
        decreases places@.len() - i,
    {
        assert(given[i as int] == places@[i as int]);
        assert(all[given[i as int]] == snapshots@[places@[i as int] as int]@);
        assert(all[place as int] == snapshots@[place as int]@);
        if !is_ancestor(
            snapshots[places[i]].sha.as_str(),
            snapshots[place].sha.as_str(),
            snapshots,
        ) {
            return false;
        }
        i += 1;
    }
    true
}

/// The first of the commits of which all are ancestors.
pub fn continuous_first_seen(snapshots: &Vec<Snapshot>, places: &Vec<usize>) -> (r: Option<usize>)
    requires
        forall|k: int| #![trigger places@[k]] 0 <= k < places@.len() ==> places@[k] < snapshots@.len(),
    ensures
        match r {
            Some(place) => latest_of(snapshots.deep_view(), as_places(places@), 0) == Some(
                place as int,
            ) && place < snapshots@.len(),
            None => latest_of(snapshots.deep_view(), as_places(places@), 0) is None,
        },
{
    let ghost all = snapshots.deep_view();
    let ghost given = as_places(places@);
    let mut i: usize = 0;
    while i < places.len()
        invariant
            i <= places@.len(),
            forall|k: int|
                #![trigger places@[k]]
                0 <= k < places@.len() ==> places@[k] < snapshots@.len(),
            all == snapshots.deep_view(),
            given == as_places(places@),
            latest_of(all, given, 0) == latest_of(all, given, i as int),
        decreases places@.len() - i,
    {
        assert(given[i as int] == places@[i as int]);
        if holds_all(snapshots, places, places[i]) {
            return Some(places[i]);
        }
        i += 1;
    }
    None
}

fn state_at<S: Traced>(states: &Vec<S>, like: &S) -> (r: Option<usize>)
    ensures
        match r {
            Some(j) => j < states@.len() && S::has_age(states.deep_view()[j as int]) && S::key(
                states.deep_view()[j as int],
            ) == S::key(like.deep_view()),
            None => !has_state::<S>(states.deep_view(), S::key(like.deep_view())),
        },
{
    let ghost all = states.deep_view();
    let mut i: usize = 0;
    while i < states.len()
        invariant
            i <= states@.len(),
            all == states.deep_view(),
            forall|j: int|
                #![trigger all[j]]
                0 <= j < i ==> !(S::has_age(all[j]) && S::key(all[j]) == S::key(like.deep_view())),
        decreases states@.len() - i,
    {
        assert(all[i as int] == states@[i as int].deep_view());
        if states[i].counts() && states[i].same_key(like) {
            return Some(i);
        }
        i += 1;
    }
    None
}

fn find_predecessor<S: Traced>(states: &Vec<S>, known: &Vec<S>, t: &Transition, next: &S) -> (r:
    Option<usize>)
    ensures
        match r {
            Some(j) => {
                &&& j < known@.len()
                &&& S::has_age(known.deep_view()[j as int])
                &&& predecessor::<S>(
                    states.deep_view(),
                    known.deep_view(),
                    t@,
                    S::key(next.deep_view()),
                ) == Some(S::key(known.deep_view()[j as int]))
            },
            None => predecessor::<S>(
                states.deep_view(),
                known.deep_view(),
                t@,
                S::key(next.deep_view()),
            ) is None,
        },
{
    let ghost all = states.deep_view();
    let ghost key = S::key(next.deep_view());
    let mut i: usize = 0;
    assert(all.skip(0) =~= all);
    while i < states.len()
        invariant
            i <= states@.len(),
            all == states.deep_view(),
            key == S::key(next.deep_view()),
            predecessor::<S>(all, known.deep_view(), t@, key) == predecessor::<S>(
                all.skip(i as int),
                known.deep_view(),
                t@,
                key,
            ),
        decreases states@.len() - i,
    {
        assert(all.skip(i as int)[0] == states@[i as int].deep_view());
        assert(all.skip(i as int).drop_first() =~= all.skip(i + 1));
        if states[i].counts() && states[i].goes_to(t, next) {
            match state_at(known, &states[i]) {
                Some(j) => {
                    assert(has_state::<S>(known.deep_view(), S::key(states@[i as int].deep_view())));
                    return Some(j);
                },
                None => {},
            }
        }
        i += 1;
    }
    None
}

/// The table holds the first appearance of every state of the first `end`
/// commits that has an age.
spec fn is_table<S: Traced>(
    snapshots: Seq<SnapshotView>,
    links: Seq<LinkView>,
    table: Seq<Vec<usize>>,
) -> bool {
    forall|i: int|
        #![trigger table[i]]
        0 <= i < table.len() ==> is_row::<S>(snapshots, links, i, table[i]@, S::states(snapshots[i]).len() as int)
}

spec fn is_row<S: Traced>(
    snapshots: Seq<SnapshotView>,
    links: Seq<LinkView>,
    i: int,
    row: Seq<usize>,
    n: int,
) -> bool {
    &&& row.len() == n
    &&& forall|j: int|
        #![trigger row[j]]
        0 <= j < n ==> row[j] < snapshots.len() && (S::has_age(S::states(snapshots[i])[j])
            ==> row[j] == first_seen::<S>(
            snapshots,
            links,
            i,
            S::key(S::states(snapshots[i])[j]),
        ))
}

/// The first appearances at the parents of a commit; nothing where one of them
/// has no such state.
fn parents_first_seen<S: Traced>(
    snapshots: &Vec<Snapshot>,
    transitions: &Transitions,
    table: &Vec<Vec<usize>>,
    i: usize,
    state: &S,
) -> (r: Option<Vec<usize>>)
    requires
        i < snapshots@.len(),
        table@.len() == i,
        is_table::<S>(snapshots.deep_view(), transitions@, table@),
    ensures
        match r {
            Some(places) => {
                &&& first_seen_of_parents::<S>(
                    snapshots.deep_view(),
                    transitions@,
                    i as int,
                    S::key(state.deep_view()),
                    snapshots@[i as int]@.parents.len() as int,
                ) == Some(as_places(places@))
                &&& forall|k: int|
                    #![trigger places@[k]]
                    0 <= k < places@.len() ==> places@[k] < snapshots@.len()
            },
            None => first_seen_of_parents::<S>(
                snapshots.deep_view(),
                transitions@,
                i as int,
                S::key(state.deep_view()),
                snapshots@[i as int]@.parents.len() as int,
            ) is None,
        },
{
    let ghost all = snapshots.deep_view();
    let ghost links = transitions@;
    let ghost key = S::key(state.deep_view());
    let ghost parents = snapshots@[i as int]@.parents;
    let n: usize = snapshots.len();
    let mut places: Vec<usize> = Vec::new();
    let mut p: usize = 0;
    assert(as_places(places@) =~= Seq::<int>::empty());
    while p < snapshots[i].parents.len()
        invariant
            i < snapshots@.len(),
            n == snapshots@.len(),
            table@.len() == i,
            all == snapshots.deep_view(),
            links == transitions@,
            key == S::key(state.deep_view()),
            parents == snapshots@[i as int]@.parents,
            is_table::<S>(all, links, table@),
            p <= parents.len(),
            parents.len() == snapshots@[i as int].parents@.len(),
            first_seen_of_parents::<S>(all, links, i as int, key, p as int) == Some(
                as_places(places@),
            ),
            forall|k: int|
                #![trigger places@[k]]
                0 <= k < places@.len() ==> places@[k] < snapshots@.len(),
        decreases parents.len() - p,
    {
        assert(all[i as int] == snapshots@[i as int]@);
        assert(parents[p as int] == snapshots@[i as int].parents@[p as int]@);
        assert(all.take(n as int) =~= all);
        let parent = snapshots[i].parents[p].as_str();
        let found: Option<usize> = match (
            find_place(snapshots, n, parent),
            find_place(snapshots, i, parent),
            transitions.get(parent, snapshots[i].sha.as_str()),
        ) {
            (Some(named), Some(earlier), Some(t)) => {
                assert(all[named as int] == snapshots@[named as int]@);
                assert(all[earlier as int] == snapshots@[earlier as int]@);
                match find_predecessor::<S>(
                    S::list(&snapshots[named]),
                    S::list(&snapshots[earlier]),
                    t,
                    state,
                ) {
                    Some(j) => {
                        assert(is_row::<S>(
                            all,
                            links,
                            earlier as int,
                            table@[earlier as int]@,
                            S::states(all[earlier as int]).len() as int,
                        ));
                        Some(table[earlier][j])
                    },
                    None => None,
                }
            },
            _ => None,
        };
        match found {
            Some(place) => {
                let ghost before = places@;
                places.push(place);
                assert(as_places(places@) =~= as_places(before).push(place as int));
            },
            None => {
                proof {
                    lemma_no_first_seen::<S>(
                        all,
                        links,
                        i as int,
                        key,
                        p + 1,
                        parents.len() as int,
                    );
                }
                return None;
            },
        }
        p += 1;
    }
    Some(places)
}

/// Once a parent has no such state, nothing is inherited.
proof fn lemma_no_first_seen<S: Traced>(
    snapshots: Seq<SnapshotView>,
    links: Seq<LinkView>,
    i: int,
    key: S::Key,
    n: int,
    m: int,
)
    requires
        n <= m,
        first_seen_of_parents::<S>(snapshots, links, i, key, n) is None,
    ensures
        first_seen_of_parents::<S>(snapshots, links, i, key, m) is None,
    decreases m - n,
{
    if n < m {
        lemma_no_first_seen::<S>(snapshots, links, i, key, n, m - 1);
    }
}

fn first_seen_row<S: Traced>(
    snapshots: &Vec<Snapshot>,
    transitions: &Transitions,
    table: &Vec<Vec<usize>>,
    i: usize,
) -> (r: Vec<usize>)
    requires
        i < snapshots@.len(),
        table@.len() == i,
        is_table::<S>(snapshots.deep_view(), transitions@, table@),
    ensures
        is_row::<S>(
            snapshots.deep_view(),
            transitions@,
            i as int,
            r@,
            S::states(snapshots@[i as int]@).len() as int,
        ),
{
    let ghost all = snapshots.deep_view();
    let states = S::list(&snapshots[i]);
    assert(all[i as int] == snapshots@[i as int]@);
    let mut row: Vec<usize> = Vec::new();
    let mut j: usize = 0;
    while j < states.len()
        invariant
            i < snapshots@.len(),
            table@.len() == i,
            all == snapshots.deep_view(),
            all[i as int] == snapshots@[i as int]@,
            states.deep_view() == S::states(all[i as int]),
            j <= states@.len(),
            is_table::<S>(all, transitions@, table@),
            is_row::<S>(all, transitions@, i as int, row@, j as int),
        decreases states@.len() - j,
    {
        assert(S::states(all[i as int])[j as int] == states@[j as int].deep_view());
        let mut place: usize = i;
        if states[j].counts() {
            match parents_first_seen::<S>(snapshots, transitions, table, i, &states[j]) {
                Some(places) => match continuous_first_seen(snapshots, &places) {
                    Some(latest) => {
                        place = latest;
                    },
                    None => {},
                },
                None => {},
            }
        }
        let ghost before = row@;
        row.push(place);
        assert forall|k: int| #![trigger row@[k]] 0 <= k < j + 1 implies row@[k] < all.len() && (
        S::has_age(S::states(all[i as int])[k]) ==> row@[k] == first_seen::<S>(
            all,
            transitions@,
            i as int,
            S::key(S::states(all[i as int])[k]),
        )) by {
            if k < j {
                assert(row@[k] == before[k]);
            }
        }
        j += 1;
    }
    row
}

/// For each state of the last commit that has an age, the place of the commit
/// at which it first appeared.
pub fn first_appearances<S: Traced>(snapshots: &Vec<Snapshot>, transitions: &Transitions) -> (r: Vec<
    usize,
>)
    requires
        snapshots@.len() > 0,
    ensures
        r@.len() == S::states(snapshots.deep_view().last()).len(),
        forall|j: int|
            #![trigger r@[j]]
            0 <= j < r@.len() ==> r@[j] < snapshots@.len() && (S::has_age(
                S::states(snapshots.deep_view().last())[j],
            ) ==> r@[j] == first_seen::<S>(
                snapshots.deep_view(),
                transitions@,
                snapshots@.len() - 1,
                S::key(S::states(snapshots.deep_view().last())[j]),
            )),
{
    let ghost all = snapshots.deep_view();
    let n: usize = snapshots.len();
    let mut table: Vec<Vec<usize>> = Vec::new();
    while table.len() < n - 1
        invariant
            n == snapshots@.len(),
            n > 0,
            table@.len() <= n - 1,
            all == snapshots.deep_view(),
            is_table::<S>(all, transitions@, table@),
        decreases n - table@.len(),
    {
        let i: usize = table.len();
        let row = first_seen_row::<S>(snapshots, transitions, &table, i);
        let ghost before = table@;
        table.push(row);
        assert forall|k: int| #![trigger table@[k]] 0 <= k < table@.len() implies is_row::<S>(
            all,
            transitions@,
            k,
            table@[k]@,
            S::states(all[k]).len() as int,
        ) by {
            if k < i {
                assert(table@[k] == before[k]);
            } else {
                assert(all[k] == snapshots@[k]@);
            }
        }
    }
    assert(all.last() == snapshots@[n - 1]@);
    first_seen_row::<S>(snapshots, transitions, &table, n - 1)
}

/// The first appearance of each deferred entry of the last commit.
pub fn entry_ages(snapshots: &Vec<Snapshot>, transitions: &Transitions) -> (r: Vec<usize>)
    requires
        snapshots@.len() > 0,
    ensures
        r@.len() == snapshots.deep_view().last().entries.len(),
        forall|j: int|
            #![trigger r@[j]]
            0 <= j < r@.len() ==> r@[j] < snapshots@.len()
                && (snapshots.deep_view().last().entries[j].kind == Kind::Deferred ==> r@[j]
                == first_seen::<EntryState>(
                snapshots.deep_view(),
                transitions@,
                snapshots@.len() - 1,
                snapshots.deep_view().last().entries[j].address,
            )),
{
    first_appearances::<EntryState>(snapshots, transitions)
}

/// The first appearance of each soft finding of the last commit.
pub fn finding_ages(snapshots: &Vec<Snapshot>, transitions: &Transitions) -> (r: Vec<usize>)
    requires
        snapshots@.len() > 0,
    ensures
        r@.len() == snapshots.deep_view().last().findings.len(),
        forall|j: int|
            #![trigger r@[j]]
            0 <= j < r@.len() ==> r@[j] < snapshots@.len() && r@[j] == first_seen::<FindingState>(
                snapshots.deep_view(),
                transitions@,
                snapshots@.len() - 1,
                snapshots.deep_view().last().findings[j].address,
            ),
{
    first_appearances::<FindingState>(snapshots, transitions)
}

/// Whole days from one time to a later one.
pub open spec fn days_between(first: int, to: int) -> int {
    (to - first) / 86_400
}

/// The elapsed time fits and is not negative.
pub open spec fn is_elapsed(first: int, to: int) -> bool {
    0 <= to - first <= i64::MAX
}

/// The age, in whole days, at the endpoint. A first appearance later than the
/// endpoint is refused.
pub fn age_days(first: i64, to: i64, range: &str) -> (r: Result<u64, HistoryError>)
    ensures
        match r {
            Ok(days) => is_elapsed(first as int, to as int) && days == days_between(
                first as int,
                to as int,
            ),
            Err(error) => !is_elapsed(first as int, to as int) && error@ == failure(
                range@,
                "first-seen timestamp is later than the endpoint"@,
            ),
        },
{
    match to.checked_sub(first) {
        Some(elapsed) => {
            if elapsed >= 0 {
                return Ok((elapsed as u64) / 86_400);
            }
        },
        None => {},
    }
    Err(
        HistoryError::new(range, "first-seen timestamp is later than the endpoint".to_owned()),
    )
}

} // verus!
