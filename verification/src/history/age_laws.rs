//! How an age goes from commit to commit, said of the findings and entries of
//! the commits and of the renames between them.

use vstd::prelude::*;

use super::ages::{
    first_seen, first_seen_of_parents, inherited, is_latest, latest_of, predecessor, has_state,
    Traced,
};
use super::ancestry::{descends, is_parent, is_walk, lemma_descends_parent, lemma_descends_self};
use super::data::{
    AddressView, EntryState, FindingAddressView, FindingState, MovementKind, SnapshotView,
};
use super::identity::{mapped_address, TransitionView};
use super::identity_laws::{
    entry_moves, evidence_of, finding_moves, lemma_entry_goes_with_its_paths,
    lemma_finding_goes_with_its_file, moves, moves_by_name, names_path,
};
use super::laws::{distinct_commits, lemma_age_continues, lemma_age_restarts};
use super::transitions::{evidence_for, lemma_place_of, place_of, LinkView};
use crate::exceptions::Kind;
use crate::text::Text;

verus! {

// ---------------------------------------------------------------------------
// Links
// ---------------------------------------------------------------------------

/// The evidence between two commits is `t`: the last link between them has it.
pub open spec fn tells(links: Seq<LinkView>, old: Text, new: Text, t: TransitionView) -> bool {
    exists|l: int|
        #![trigger links[l]]
        {
            &&& 0 <= l < links.len()
            &&& links[l].old == old
            &&& links[l].new == new
            &&& links[l].transition == t
            &&& forall|m: int|
                #![trigger links[m]]
                l < m < links.len() ==> !(links[m].old == old && links[m].new == new)
        }
}

/// The last link between two commits is the evidence between them, and there is
/// no other.
pub proof fn lemma_last_link_tells(
    links: Seq<LinkView>,
    old: Text,
    new: Text,
    t: TransitionView,
)
    ensures
        tells(links, old, new, t) <==> evidence_for(links, old, new) == Some(t),
        evidence_for(links, old, new) is None <==> forall|l: int|
            #![trigger links[l]]
            0 <= l < links.len() ==> !(links[l].old == old && links[l].new == new),
    decreases links.len(),
{
    if links.len() > 0 {
        let rest = links.drop_last();
        let n = links.len() - 1;
        lemma_last_link_tells(rest, old, new, t);
        assert forall|l: int| #![trigger links[l]] 0 <= l < n implies links[l] == rest[l] by {}
        assert(links[n] == links.last());
        if !(links.last().old == old && links.last().new == new) {
            if tells(rest, old, new, t) {
                let l = choose|l: int|
                    #![trigger rest[l]]
                    {
                        &&& 0 <= l < rest.len()
                        &&& rest[l].old == old
                        &&& rest[l].new == new
                        &&& rest[l].transition == t
                        &&& forall|m: int|
                            #![trigger rest[m]]
                            l < m < rest.len() ==> !(rest[m].old == old && rest[m].new == new)
                    };
                assert(links[l] == rest[l]);
            }
            if tells(links, old, new, t) {
                let l = choose|l: int|
                    #![trigger links[l]]
                    {
                        &&& 0 <= l < links.len()
                        &&& links[l].old == old
                        &&& links[l].new == new
                        &&& links[l].transition == t
                        &&& forall|m: int|
                            #![trigger links[m]]
                            l < m < links.len() ==> !(links[m].old == old && links[m].new == new)
                    };
                assert(l < n);
                assert(rest[l] == links[l]);
                assert forall|m: int| #![trigger rest[m]] l < m < rest.len() implies !(rest[m].old
                    == old && rest[m].new == new) by {
                    assert(rest[m] == links[m]);
                }
            }
            if evidence_for(rest, old, new) is None {
                assert forall|l: int| #![trigger links[l]] 0 <= l < links.len() implies !(
                links[l].old == old && links[l].new == new) by {
                    if l < n {
                        assert(rest[l] == links[l]);
                    }
                }
            }
            if forall|l: int|
                #![trigger links[l]]
                0 <= l < links.len() ==> !(links[l].old == old && links[l].new == new) {
                assert forall|l: int| #![trigger rest[l]] 0 <= l < rest.len() implies !(rest[l].old
                    == old && rest[l].new == new) by {
                    assert(rest[l] == links[l]);
                }
            }
        } else {
            if tells(links, old, new, t) {
                let l = choose|l: int|
                    #![trigger links[l]]
                    {
                        &&& 0 <= l < links.len()
                        &&& links[l].old == old
                        &&& links[l].new == new
                        &&& links[l].transition == t
                        &&& forall|m: int|
                            #![trigger links[m]]
                            l < m < links.len() ==> !(links[m].old == old && links[m].new == new)
                    };
                assert(l == n);
            }
        }
    }
}

pub(super) proof fn lemma_place_is_last(snapshots: Seq<SnapshotView>, n: int, k: int)
    requires
        distinct_commits(snapshots),
        0 <= k < n <= snapshots.len(),
    ensures
        place_of(snapshots.take(n), snapshots[k].sha) == Some(k),
{
    let some = snapshots.take(n);
    let sha = snapshots[k].sha;
    lemma_place_of(some, sha);
    assert(some[k] == snapshots[k]);
    if let Some(j) = place_of(some, sha) {
        assert(some[j] == snapshots[j]);
        if j < k {
            assert(snapshots[j].sha != snapshots[k].sha);
        } else if k < j {
            assert(snapshots[k].sha != snapshots[j].sha);
        }
    } else {
        assert(some[k].sha != sha);
    }
}

/// The commit at `k` is the parent `p` of the commit at `i`, and `t` is the
/// evidence between them.
pub open spec fn comes_from(
    snapshots: Seq<SnapshotView>,
    links: Seq<LinkView>,
    i: int,
    p: int,
    k: int,
    t: TransitionView,
) -> bool {
    &&& distinct_commits(snapshots)
    &&& 0 <= k < i < snapshots.len()
    &&& 0 <= p < snapshots[i].parents.len()
    &&& snapshots[i].parents[p] == snapshots[k].sha
    &&& tells(links, snapshots[k].sha, snapshots[i].sha, t)
}

proof fn lemma_inherits<S: Traced>(
    snapshots: Seq<SnapshotView>,
    links: Seq<LinkView>,
    i: int,
    p: int,
    k: int,
    t: TransitionView,
    key: S::Key,
)
    requires
        comes_from(snapshots, links, i, p, k, t),
    ensures
        inherited::<S>(snapshots, links, i, snapshots[i].parents[p], key) == (match predecessor::<
            S,
        >(S::states(snapshots[k]), S::states(snapshots[k]), t, key) {
            Some(previous) => Some((k, previous)),
            None => None,
        }),
{
    let n = snapshots.len() as int;
    assert(snapshots.take(n) =~= snapshots);
    lemma_place_is_last(snapshots, n, k);
    lemma_place_is_last(snapshots, i, k);
    lemma_last_link_tells(links, snapshots[k].sha, snapshots[i].sha, t);
}

// ---------------------------------------------------------------------------
// Findings
// ---------------------------------------------------------------------------

/// The finding at `j` is the first of the commit that comes to `g`.
pub open spec fn is_first_finding_to(
    s: SnapshotView,
    t: TransitionView,
    j: int,
    g: FindingAddressView,
) -> bool {
    &&& 0 <= j < s.findings.len()
    &&& finding_moves(t, s.findings[j].address, g)
    &&& forall|m: int|
        #![trigger s.findings[m]]
        0 <= m < j ==> !finding_moves(t, s.findings[m].address, g)
}

proof fn lemma_finding_precedes(
    s: SnapshotView,
    n: int,
    t: TransitionView,
    j: int,
    g: FindingAddressView,
)
    requires
        0 <= n <= j,
        is_first_finding_to(s, t, j, g),
    ensures
        predecessor::<FindingState>(s.findings.skip(n), s.findings, t, g) == Some(
            s.findings[j].address,
        ),
    decreases j - n,
{
    let rest = s.findings.skip(n);
    assert(rest[0] == s.findings[n]);
    lemma_finding_goes_with_its_file(t, s.findings[n].address, g);
    if n < j {
        assert(!finding_moves(t, s.findings[n].address, g));
        assert(rest.drop_first() =~= s.findings.skip(n + 1));
        lemma_finding_precedes(s, n + 1, t, j, g);
    } else {
        assert(has_state::<FindingState>(s.findings, s.findings[j].address));
    }
}

proof fn lemma_no_finding_precedes(
    s: SnapshotView,
    n: int,
    t: TransitionView,
    g: FindingAddressView,
)
    requires
        0 <= n <= s.findings.len(),
        forall|m: int|
            #![trigger s.findings[m]]
            n <= m < s.findings.len() ==> !finding_moves(t, s.findings[m].address, g),
    ensures
        predecessor::<FindingState>(s.findings.skip(n), s.findings, t, g) is None,
    decreases s.findings.len() - n,
{
    let rest = s.findings.skip(n);
    if n < s.findings.len() {
        assert(rest[0] == s.findings[n]);
        lemma_finding_goes_with_its_file(t, s.findings[n].address, g);
        assert(rest.drop_first() =~= s.findings.skip(n + 1));
        lemma_no_finding_precedes(s, n + 1, t, g);
    }
}

/// Where the only parent has a finding that comes to `g`, the finding at `g` has
/// first appeared where that one has.
pub proof fn lemma_finding_age_goes_on(
    snapshots: Seq<SnapshotView>,
    links: Seq<LinkView>,
    i: int,
    k: int,
    t: TransitionView,
    j: int,
    g: FindingAddressView,
)
    requires
        comes_from(snapshots, links, i, 0, k, t),
        snapshots[i].parents.len() == 1,
        is_first_finding_to(snapshots[k], t, j, g),
    ensures
        first_seen::<FindingState>(snapshots, links, i, g) == first_seen::<FindingState>(
            snapshots,
            links,
            k,
            snapshots[k].findings[j].address,
        ),
{
    let s = snapshots[k];
    lemma_inherits::<FindingState>(snapshots, links, i, 0, k, t, g);
    lemma_finding_precedes(s, 0, t, j, g);
    assert(s.findings.skip(0) =~= s.findings);
    lemma_age_continues::<FindingState>(snapshots, links, i, g, k, s.findings[j].address);
}

/// A finding keeps its age through a rename of its file: where the evidence
/// between a commit and its only parent has, as the first for `p`, a rename from
/// `p` to `q`, the finding of a rule and unit at `q` has first appeared where
/// that of the same rule and unit at `p` has. No finding listed before that one
/// comes to `q` as well.
pub proof fn lemma_finding_age_follows_a_rename(
    snapshots: Seq<SnapshotView>,
    links: Seq<LinkView>,
    i: int,
    k: int,
    t: TransitionView,
    r: int,
    j: int,
    g: FindingAddressView,
)
    requires
        comes_from(snapshots, links, i, 0, k, t),
        snapshots[i].parents.len() == 1,
        0 <= r < t.renames.len(),
        0 <= j < snapshots[k].findings.len(),
        t.renames[r].old == snapshots[k].findings[j].address.path,
        t.renames[r].new == g.path,
        forall|s: int|
            #![trigger t.renames[s]]
            0 <= s < r ==> t.renames[s].old != t.renames[r].old,
        g.rule == snapshots[k].findings[j].address.rule,
        g.unit == snapshots[k].findings[j].address.unit,
        forall|m: int|
            #![trigger snapshots[k].findings[m]]
            0 <= m < j ==> !finding_moves(t, snapshots[k].findings[m].address, g),
    ensures
        first_seen::<FindingState>(snapshots, links, i, g) == first_seen::<FindingState>(
            snapshots,
            links,
            k,
            snapshots[k].findings[j].address,
        ),
{
    let path = t.renames[r].old;
    let kind = Some(evidence_of(t.renames[r]));
    assert(names_path(t.renames[r], path, false));
    assert(moves_by_name(t.renames, path, false, r, g.path, kind));
    assert(moves(t.style, t.renames, path, false, g.path, kind));
    assert(finding_moves(t, snapshots[k].findings[j].address, g));
    lemma_finding_age_goes_on(snapshots, links, i, k, t, j, g);
}

/// A finding that a parent does not bring first appeared at the commit itself.
pub proof fn lemma_finding_age_starts(
    snapshots: Seq<SnapshotView>,
    links: Seq<LinkView>,
    i: int,
    p: int,
    k: int,
    t: TransitionView,
    g: FindingAddressView,
)
    requires
        comes_from(snapshots, links, i, p, k, t),
        forall|m: int|
            #![trigger snapshots[k].findings[m]]
            0 <= m < snapshots[k].findings.len() ==> !finding_moves(
                t,
                snapshots[k].findings[m].address,
                g,
            ),
    ensures
        first_seen::<FindingState>(snapshots, links, i, g) == i,
{
    let s = snapshots[k];
    lemma_inherits::<FindingState>(snapshots, links, i, p, k, t, g);
    lemma_no_finding_precedes(s, 0, t, g);
    assert(s.findings.skip(0) =~= s.findings);
    lemma_age_restarts::<FindingState>(snapshots, links, i, g, p);
}

// ---------------------------------------------------------------------------
// Entries
// ---------------------------------------------------------------------------

/// The commit has a deferred entry at `j` that comes to `b`.
pub open spec fn entry_comes(s: SnapshotView, t: TransitionView, j: int, b: AddressView) -> bool {
    &&& s.entries[j].kind == Kind::Deferred
    &&& exists|kind: Option<MovementKind>| #[trigger] entry_moves(t, s.entries[j].address, b, kind)
}

/// The entry at `j` is the first deferred one of the commit that comes to `b`.
pub open spec fn is_first_entry_to(
    s: SnapshotView,
    t: TransitionView,
    j: int,
    b: AddressView,
) -> bool {
    &&& 0 <= j < s.entries.len()
    &&& entry_comes(s, t, j, b)
    &&& forall|m: int| #![trigger s.entries[m]] 0 <= m < j ==> !entry_comes(s, t, m, b)
}

proof fn lemma_entry_comes(s: SnapshotView, t: TransitionView, j: int, b: AddressView)
    ensures
        entry_comes(s, t, j, b) <==> EntryState::has_age(s.entries[j]) && EntryState::carried(
            t,
            EntryState::key(s.entries[j]),
        ) == b,
{
    let a = s.entries[j].address;
    if entry_comes(s, t, j, b) {
        let kind = choose|kind: Option<MovementKind>| #[trigger] entry_moves(t, a, b, kind);
        lemma_entry_goes_with_its_paths(t, a, b, kind);
    }
    if EntryState::carried(t, a) == b {
        let kind = mapped_address(t, a).1;
        lemma_entry_goes_with_its_paths(t, a, b, kind);
        assert(entry_moves(t, a, b, kind));
    }
}

proof fn lemma_entry_precedes(
    s: SnapshotView,
    n: int,
    t: TransitionView,
    j: int,
    b: AddressView,
)
    requires
        0 <= n <= j,
        is_first_entry_to(s, t, j, b),
    ensures
        predecessor::<EntryState>(s.entries.skip(n), s.entries, t, b) == Some(
            s.entries[j].address,
        ),
    decreases j - n,
{
    let rest = s.entries.skip(n);
    assert(rest[0] == s.entries[n]);
    lemma_entry_comes(s, t, n, b);
    if n < j {
        assert(!entry_comes(s, t, n, b)) by {
            assert(s.entries[n] == rest[0]);
        }
        assert(rest.drop_first() =~= s.entries.skip(n + 1));
        lemma_entry_precedes(s, n + 1, t, j, b);
    } else {
        assert(has_state::<EntryState>(s.entries, s.entries[j].address));
    }
}

proof fn lemma_no_entry_precedes(s: SnapshotView, n: int, t: TransitionView, b: AddressView)
    requires
        0 <= n <= s.entries.len(),
        forall|m: int|
            #![trigger s.entries[m]]
            n <= m < s.entries.len() ==> !entry_comes(s, t, m, b),
    ensures
        predecessor::<EntryState>(s.entries.skip(n), s.entries, t, b) is None,
    decreases s.entries.len() - n,
{
    let rest = s.entries.skip(n);
    if n < s.entries.len() {
        assert(rest[0] == s.entries[n]);
        lemma_entry_comes(s, t, n, b);
        assert(rest.drop_first() =~= s.entries.skip(n + 1));
        lemma_no_entry_precedes(s, n + 1, t, b);
    }
}

/// Where the only parent has a deferred entry that comes to `b`, the deferral at
/// `b` has first appeared where that one has.
pub proof fn lemma_entry_age_goes_on(
    snapshots: Seq<SnapshotView>,
    links: Seq<LinkView>,
    i: int,
    k: int,
    t: TransitionView,
    j: int,
    b: AddressView,
)
    requires
        comes_from(snapshots, links, i, 0, k, t),
        snapshots[i].parents.len() == 1,
        is_first_entry_to(snapshots[k], t, j, b),
    ensures
        first_seen::<EntryState>(snapshots, links, i, b) == first_seen::<EntryState>(
            snapshots,
            links,
            k,
            snapshots[k].entries[j].address,
        ),
{
    let s = snapshots[k];
    lemma_inherits::<EntryState>(snapshots, links, i, 0, k, t, b);
    lemma_entry_precedes(s, 0, t, j, b);
    assert(s.entries.skip(0) =~= s.entries);
    lemma_age_continues::<EntryState>(snapshots, links, i, b, k, s.entries[j].address);
}

/// A deferral that a parent does not bring first appeared at the commit itself:
/// an entry that was no deferral there, or was not there, has no age.
pub proof fn lemma_entry_age_starts(
    snapshots: Seq<SnapshotView>,
    links: Seq<LinkView>,
    i: int,
    p: int,
    k: int,
    t: TransitionView,
    b: AddressView,
)
    requires
        comes_from(snapshots, links, i, p, k, t),
        forall|m: int|
            #![trigger snapshots[k].entries[m]]
            0 <= m < snapshots[k].entries.len() ==> !entry_comes(snapshots[k], t, m, b),
    ensures
        first_seen::<EntryState>(snapshots, links, i, b) == i,
{
    let s = snapshots[k];
    lemma_inherits::<EntryState>(snapshots, links, i, p, k, t, b);
    lemma_no_entry_precedes(s, 0, t, b);
    assert(s.entries.skip(0) =~= s.entries);
    lemma_age_restarts::<EntryState>(snapshots, links, i, b, p);
}

// ---------------------------------------------------------------------------
// Both
// ---------------------------------------------------------------------------

/// A state of the first commit of a history first appeared there, and so did
/// one of a commit with a parent that is not part of the history or that no
/// evidence leads from.
pub proof fn lemma_unknown_parent_starts_ages<S: Traced>(
    snapshots: Seq<SnapshotView>,
    links: Seq<LinkView>,
    i: int,
    key: S::Key,
)
    requires
        0 <= i < snapshots.len(),
        snapshots[i].parents.len() == 0 || exists|p: int|
            #![trigger snapshots[i].parents[p]]
            0 <= p < snapshots[i].parents.len() && ((forall|k: int|
                #![trigger snapshots[k]]
                0 <= k < i ==> snapshots[k].sha != snapshots[i].parents[p]) || (forall|l: int|
                #![trigger links[l]]
                0 <= l < links.len() ==> !(links[l].old == snapshots[i].parents[p] && links[l].new
                    == snapshots[i].sha))),
    ensures
        first_seen::<S>(snapshots, links, i, key) == i,
{
    if snapshots[i].parents.len() == 0 {
        assert(first_seen_of_parents::<S>(snapshots, links, i, key, 0) == Some(
            Seq::<int>::empty(),
        ));
    } else {
        let p = choose|p: int|
            #![trigger snapshots[i].parents[p]]
            0 <= p < snapshots[i].parents.len() && ((forall|k: int|
                #![trigger snapshots[k]]
                0 <= k < i ==> snapshots[k].sha != snapshots[i].parents[p]) || (forall|l: int|
                #![trigger links[l]]
                0 <= l < links.len() ==> !(links[l].old == snapshots[i].parents[p] && links[l].new
                    == snapshots[i].sha)));
        let parent = snapshots[i].parents[p];
        lemma_place_of(snapshots.take(i), parent);
        if let Some(k) = place_of(snapshots.take(i), parent) {
            assert(snapshots.take(i)[k] == snapshots[k]);
        }
        if let Some(t) = evidence_for(links, parent, snapshots[i].sha) {
            lemma_last_link_tells(links, parent, snapshots[i].sha, t);
        }
        lemma_age_restarts::<S>(snapshots, links, i, key, p);
    }
}

/// At a merge of two parents that both bring the state, the later appearance
/// counts. Where neither came after the other, the merge itself does.
pub proof fn lemma_merge_takes_the_later<S: Traced>(
    snapshots: Seq<SnapshotView>,
    links: Seq<LinkView>,
    i: int,
    key: S::Key,
    k: int,
    a: S::Key,
    m: int,
    b: S::Key,
)
    requires
        snapshots[i].parents.len() == 2,
        inherited::<S>(snapshots, links, i, snapshots[i].parents[0], key) == Some((k, a)),
        inherited::<S>(snapshots, links, i, snapshots[i].parents[1], key) == Some((m, b)),
        0 <= k < i,
        0 <= m < i,
    ensures
        ({
            let first = first_seen::<S>(snapshots, links, k, a);
            let second = first_seen::<S>(snapshots, links, m, b);
            let seen = first_seen::<S>(snapshots, links, i, key);
            let second_later = descends(snapshots, snapshots[first].sha, snapshots[second].sha);
            let first_later = descends(snapshots, snapshots[second].sha, snapshots[first].sha);
            &&& second_later && !first_later ==> seen == second
            &&& first_later && !second_later ==> seen == first
            &&& first == second ==> seen == first
            &&& !first_later && !second_later ==> seen == i
        }),
{
    let first = first_seen::<S>(snapshots, links, k, a);
    let second = first_seen::<S>(snapshots, links, m, b);
    reveal_with_fuel(first_seen_of_parents, 4);
    assert(first_seen_of_parents::<S>(snapshots, links, i, key, 0) == Some(Seq::<int>::empty()));
    assert(Seq::<int>::empty().push(first) =~= seq![first]);
    assert(first_seen_of_parents::<S>(snapshots, links, i, key, 1) == Some(seq![first]));
    let places = seq![first, second];
    assert(seq![first].push(second) =~= places);
    assert(first_seen_of_parents::<S>(snapshots, links, i, key, 2) == Some(places));
    lemma_descends_self(snapshots, snapshots[first].sha);
    lemma_descends_self(snapshots, snapshots[second].sha);
    assert(places[0] == first && places[1] == second);
    reveal_with_fuel(latest_of, 4);
    assert(is_latest(snapshots, places, first) == descends(
        snapshots,
        snapshots[second].sha,
        snapshots[first].sha,
    )) by {
        if descends(snapshots, snapshots[second].sha, snapshots[first].sha) {
            assert forall|x: int| #![trigger places[x]] 0 <= x < places.len() implies descends(
                snapshots,
                snapshots[places[x]].sha,
                snapshots[first].sha,
            ) by {
                assert(x == 0 || x == 1);
            }
        }
    }
    assert(is_latest(snapshots, places, second) == descends(
        snapshots,
        snapshots[first].sha,
        snapshots[second].sha,
    )) by {
        if descends(snapshots, snapshots[first].sha, snapshots[second].sha) {
            assert forall|x: int| #![trigger places[x]] 0 <= x < places.len() implies descends(
                snapshots,
                snapshots[places[x]].sha,
                snapshots[second].sha,
            ) by {
                assert(x == 0 || x == 1);
            }
        }
    }
}

/// A commit comes after another exactly when it is that one, or one of its
/// parents is or comes after it.
pub proof fn lemma_descent_goes_through_parents(
    snapshots: Seq<SnapshotView>,
    i: int,
    ancestor: Text,
)
    requires
        distinct_commits(snapshots),
        0 <= i < snapshots.len(),
    ensures
        descends(snapshots, ancestor, snapshots[i].sha) <==> ancestor == snapshots[i].sha
            || exists|p: int|
            #![trigger snapshots[i].parents[p]]
            0 <= p < snapshots[i].parents.len() && descends(
                snapshots,
                ancestor,
                snapshots[i].parents[p],
            ),
{
    let sha = snapshots[i].sha;
    let n = snapshots.len() as int;
    assert(snapshots.take(n) =~= snapshots);
    lemma_place_is_last(snapshots, n, i);
    if descends(snapshots, ancestor, sha) && ancestor != sha {
        let path = choose|path: Seq<Text>| #[trigger]
            is_walk(snapshots, path) && path[0] == sha && path.last() == ancestor;
        assert(path.len() > 1) by {
            if path.len() == 1 {
                assert(path.last() == path[0]);
            }
        }
        let rest = path.skip(1);
        assert(is_parent(snapshots, path[0], path[1]));
        let p = choose|p: int| 0 <= p < snapshots[i].parents.len() && snapshots[i].parents[p]
            == path[1];
        assert forall|m: int| #![trigger rest[m]] 0 < m < rest.len() implies is_parent(
            snapshots,
            rest[m - 1],
            rest[m],
        ) by {
            assert(rest[m] == path[m + 1] && rest[m - 1] == path[m]);
        }
        assert(is_walk(snapshots, rest));
        assert(rest[0] == path[1] && rest.last() == path.last());
        assert(descends(snapshots, ancestor, snapshots[i].parents[p]));
    }
    if ancestor == sha {
        lemma_descends_self(snapshots, sha);
    }
    if exists|p: int|
        #![trigger snapshots[i].parents[p]]
        0 <= p < snapshots[i].parents.len() && descends(
            snapshots,
            ancestor,
            snapshots[i].parents[p],
        ) {
        let p = choose|p: int|
            #![trigger snapshots[i].parents[p]]
            0 <= p < snapshots[i].parents.len() && descends(
                snapshots,
                ancestor,
                snapshots[i].parents[p],
            );
        assert(snapshots[i].parents.contains(snapshots[i].parents[p]));
        lemma_descends_parent(snapshots, ancestor, snapshots[i].parents[p], sha);
    }
}

} // verus!
