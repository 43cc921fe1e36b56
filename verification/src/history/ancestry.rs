//! Ancestry among the commits of a history.

use vstd::prelude::*;

use super::data::{Snapshot, SnapshotView};
use super::transitions::{find_place, lemma_place_of, place_of};
use crate::text::{same, Text};

verus! {

/// `parent` is a parent of the commit named `child`.
pub open spec fn is_parent(snapshots: Seq<SnapshotView>, child: Text, parent: Text) -> bool {
    match place_of(snapshots, child) {
        Some(i) => snapshots[i].parents.contains(parent),
        None => false,
    }
}

/// A walk from child to parent, from `path[0]` to its last commit.
pub open spec fn is_walk(snapshots: Seq<SnapshotView>, path: Seq<Text>) -> bool {
    &&& path.len() > 0
    &&& forall|m: int|
        #![trigger path[m]]
        0 < m < path.len() ==> is_parent(snapshots, path[m - 1], path[m])
}

/// `ancestor` is the commit `descendant` itself or can be reached from it
/// through parents.
pub open spec fn descends(snapshots: Seq<SnapshotView>, ancestor: Text, descendant: Text) -> bool {
    exists|path: Seq<Text>| #[trigger]
        is_walk(snapshots, path) && path[0] == descendant && path.last() == ancestor
}

/// Every commit is an ancestor of itself.
pub proof fn lemma_descends_self(snapshots: Seq<SnapshotView>, sha: Text)
    ensures
        descends(snapshots, sha, sha),
{
    assert(is_walk(snapshots, seq![sha]));
}

/// An ancestor of a parent is an ancestor.
pub proof fn lemma_descends_parent(
    snapshots: Seq<SnapshotView>,
    ancestor: Text,
    parent: Text,
    child: Text,
)
    requires
        descends(snapshots, ancestor, parent),
        is_parent(snapshots, child, parent),
    ensures
        descends(snapshots, ancestor, child),
{
    let path = choose|path: Seq<Text>| #[trigger]
        is_walk(snapshots, path) && path[0] == parent && path.last() == ancestor;
    let longer = seq![child] + path;
    assert forall|m: int| #![trigger longer[m]] 0 < m < longer.len() implies is_parent(
        snapshots,
        longer[m - 1],
        longer[m],
    ) by {
        assert(longer[m] == path[m - 1]);
        if m > 1 {
            assert(longer[m - 1] == path[m - 2]);
        }
    }
    assert(is_walk(snapshots, longer));
    assert(longer.last() == path.last());
}

/// Ancestry chains.
pub proof fn lemma_descends_chains(snapshots: Seq<SnapshotView>, a: Text, b: Text, c: Text)
    requires
        descends(snapshots, a, b),
        descends(snapshots, b, c),
    ensures
        descends(snapshots, a, c),
{
    let path = choose|path: Seq<Text>| #[trigger]
        is_walk(snapshots, path) && path[0] == c && path.last() == b;
    lemma_descends_along(snapshots, a, path);
}

proof fn lemma_descends_along(snapshots: Seq<SnapshotView>, ancestor: Text, path: Seq<Text>)
    requires
        is_walk(snapshots, path),
        descends(snapshots, ancestor, path.last()),
    ensures
        descends(snapshots, ancestor, path[0]),
    decreases path.len(),
{
    if path.len() > 1 {
        let rest = path.drop_first();
        assert forall|m: int| #![trigger rest[m]] 0 < m < rest.len() implies is_parent(
            snapshots,
            rest[m - 1],
            rest[m],
        ) by {
            assert(rest[m] == path[m + 1]);
        }
        lemma_descends_along(snapshots, ancestor, rest);
        assert(is_parent(snapshots, path[1 - 1], path[1]));
        lemma_descends_parent(snapshots, ancestor, path[1], path[0]);
    }
}

/// What a walk from a closed set of commits can reach: nothing outside the set
/// and the parents that lie outside the history.
proof fn lemma_closed(
    snapshots: Seq<SnapshotView>,
    seen: Set<int>,
    ancestor: Text,
    path: Seq<Text>,
)
    requires
        is_walk(snapshots, path),
        place_of(snapshots, path[0]) matches Some(i) && seen.contains(i),
        path[0] != ancestor,
        forall|i: int, parent: Text|
            seen.contains(i) && #[trigger] snapshots[i].parents.contains(parent) ==> parent
                != ancestor && (place_of(snapshots, parent) matches Some(k) ==> seen.contains(k)),
    ensures
        path.last() != ancestor,
    decreases path.len(),
{
    if path.len() > 1 {
        let i = place_of(snapshots, path[0]).unwrap();
        assert(is_parent(snapshots, path[1 - 1], path[1]));
        assert(snapshots[i].parents.contains(path[1]));
        if path.len() > 2 {
            let rest = path.drop_first();
            assert forall|m: int| #![trigger rest[m]] 0 < m < rest.len() implies is_parent(
                snapshots,
                rest[m - 1],
                rest[m],
            ) by {
                assert(rest[m] == path[m + 1]);
            }
            assert(is_parent(snapshots, path[2 - 1], path[2]));
            lemma_closed(snapshots, seen, ancestor, rest);
        }
    }
}

/// The commits that are marked.
spec fn marked(flags: Seq<bool>) -> Set<int> {
    Set::new(|i: int| 0 <= i < flags.len() && flags[i])
}

proof fn lemma_marked_len(flags: Seq<bool>)
    ensures
        marked(flags).finite(),
        marked(flags).len() <= flags.len(),
{
    let all = vstd::set_lib::set_int_range(0, flags.len() as int);
    vstd::set_lib::lemma_int_range(0, flags.len() as int);
    assert(marked(flags).subset_of(all));
    vstd::set_lib::lemma_len_subset(marked(flags), all);
}

proof fn lemma_mark(flags: Seq<bool>, i: int)
    requires
        0 <= i < flags.len(),
        !flags[i],
    ensures
        marked(flags.update(i, true)).len() == marked(flags).len() + 1,
{
    lemma_marked_len(flags);
    assert(marked(flags.update(i, true)) =~= marked(flags).insert(i));
}

/// The commit was looked at: the ancestor is none of its parents, and those of
/// its parents that are known are marked.
spec fn is_spent(
    snapshots: Seq<SnapshotView>,
    ancestor: Text,
    flags: Seq<bool>,
    i: int,
    upto: int,
) -> bool {
    forall|p: int|
        #![trigger snapshots[i].parents[p]]
        0 <= p < upto ==> snapshots[i].parents[p] != ancestor && (place_of(
            snapshots,
            snapshots[i].parents[p],
        ) matches Some(k) ==> flags[k])
}

/// Marks the known parents of a commit and puts the new ones on the list.
/// Answers whether the ancestor is among them.
fn expand(
    snapshots: &Vec<Snapshot>,
    at: usize,
    ancestor: &str,
    flags: &mut Vec<bool>,
    pending: &mut Vec<usize>,
) -> (r: bool)
    requires
        at < snapshots@.len(),
        old(flags)@.len() == snapshots@.len(),
    ensures
        final(flags)@.len() == old(flags)@.len(),
        forall|i: int|
            #![trigger final(flags)@[i]]
            0 <= i < old(flags)@.len() && old(flags)@[i] ==> final(flags)@[i],
        forall|i: int|
            #![trigger final(flags)@[i]]
            0 <= i < old(flags)@.len() && final(flags)@[i] && !old(flags)@[i] ==> final(pending)@.contains(
                i as usize,
            ) && snapshots@[at as int]@.parents.contains(
                snapshots@[i]@.sha,
            ) && place_of(snapshots.deep_view(), snapshots@[i]@.sha) == Some(i),
        forall|i: usize| #[trigger]
            final(pending)@.contains(i) ==> old(pending)@.contains(i) || (i < snapshots@.len()
                && final(flags)@[i as int]),
        forall|i: usize| #[trigger] old(pending)@.contains(i) ==> final(pending)@.contains(i),
        marked(final(flags)@).len() - marked(old(flags)@).len() == final(pending)@.len()
            - old(pending)@.len(),
        if r {
            snapshots@[at as int]@.parents.contains(ancestor@)
        } else {
            is_spent(
                snapshots.deep_view(),
                ancestor@,
                final(flags)@,
                at as int,
                snapshots@[at as int]@.parents.len() as int,
            )
        },
{
    let ghost all = snapshots.deep_view();
    let ghost parents = snapshots@[at as int]@.parents;
    let ghost first_flags = flags@;
    let ghost first_pending = pending@;
    let n: usize = snapshots.len();
    let mut p: usize = 0;
    while p < snapshots[at].parents.len()
        invariant
            at < snapshots@.len(),
            n == snapshots@.len(),
            p <= snapshots@[at as int].parents@.len(),
            all == snapshots.deep_view(),
            parents == snapshots@[at as int]@.parents,
            flags@.len() == n,
            first_flags.len() == n,
            first_flags == old(flags)@,
            first_pending == old(pending)@,
            forall|i: int|
                #![trigger flags@[i]]
                0 <= i < n && first_flags[i] ==> flags@[i],
            forall|i: int|
                #![trigger flags@[i]]
                0 <= i < n && flags@[i] && !first_flags[i] ==> pending@.contains(i as usize)
                    && parents.contains(snapshots@[i]@.sha) && place_of(
                    all,
                    snapshots@[i]@.sha,
                ) == Some(i),
            forall|i: usize| #[trigger]
                pending@.contains(i) ==> first_pending.contains(i) || (i < n && flags@[i as int]),
            forall|i: usize| #[trigger] first_pending.contains(i) ==> pending@.contains(i),
            marked(flags@).len() - marked(first_flags).len() == pending@.len()
                - first_pending.len(),
            is_spent(all, ancestor@, flags@, at as int, p as int),
        decreases snapshots@[at as int].parents@.len() - p,
    {
        assert(parents[p as int] == snapshots@[at as int].parents@[p as int]@);
        assert(all[at as int].parents == parents);
        if same(snapshots[at].parents[p].as_str(), ancestor) {
            assert(parents.contains(parents[p as int]));
            return true;
        }
        assert(all.take(n as int) =~= all);
        let ghost early = flags@;
        match find_place(snapshots, n, snapshots[at].parents[p].as_str()) {
            Some(k) => {
                proof {
                    lemma_place_of(all, parents[p as int]);
                    assert(all[k as int] == snapshots@[k as int]@);
                    assert(parents.contains(parents[p as int]));
                }
                if !flags[k] {
                    let ghost before_flags = flags@;
                    let ghost before = pending@;
                    proof {
                        lemma_mark(before_flags, k as int);
                    }
                    flags.set(k, true);
                    pending.push(k);
                    proof {
                        assert(pending@ =~= before.push(k));
                        assert(pending@[before.len() as int] == k);
                        assert forall|i: usize| #[trigger]
                            pending@.contains(i) <==> before.contains(i) || i == k by {
                            if before.contains(i) {
                                let j = choose|j: int| 0 <= j < before.len() && before[j] == i;
                                assert(pending@[j] == i);
                            }
                        }
                    }
                }
            },
            None => {},
        }
        assert forall|q: int| #![trigger all[at as int].parents[q]] 0 <= q < p + 1 implies all[at as int].parents[q]
            != ancestor@ && (place_of(all, all[at as int].parents[q]) matches Some(k) ==> flags@[k]) by {
            lemma_place_of(all, all[at as int].parents[q]);
            if q < p {
                assert(is_spent(all, ancestor@, early, at as int, p as int));
            }
        }
        p += 1;
    }
    false
}

/// Whether a commit is another one or one of its ancestors.
pub fn is_ancestor(ancestor: &str, descendant: &str, snapshots: &Vec<Snapshot>) -> (r: bool)
    ensures
        r == descends(snapshots.deep_view(), ancestor@, descendant@),
{
    let ghost all = snapshots.deep_view();
    if same(descendant, ancestor) {
        proof {
            lemma_descends_self(all, ancestor@);
        }
        return true;
    }
    let n: usize = snapshots.len();
    assert(all.take(n as int) =~= all);
    let start: usize = match find_place(snapshots, n, descendant) {
        Some(start) => start,
        None => {
            proof {
                if descends(all, ancestor@, descendant@) {
                    let path = choose|path: Seq<Text>| #[trigger]
                        is_walk(all, path) && path[0] == descendant@ && path.last() == ancestor@;
                    assert(is_parent(all, path[1 - 1], path[1]));
                }
            }
            return false;
        },
    };
    proof {
        lemma_place_of(all, descendant@);
        lemma_descends_self(all, descendant@);
    }
    let mut flags: Vec<bool> = Vec::new();
    let mut i: usize = 0;
    while i < n
        invariant
            i <= n,
            flags@.len() == i,
            forall|j: int| #![trigger flags@[j]] 0 <= j < i ==> !flags@[j],
        decreases n - i,
    {
        flags.push(false);
        i += 1;
    }
    flags.set(start, true);
    let mut pending: Vec<usize> = Vec::new();
    pending.push(start);
    assert(pending@[0] == start);
    while pending.len() > 0
        invariant
            n == snapshots@.len(),
            all == snapshots.deep_view(),
            start < n,
            place_of(all, descendant@) == Some(start as int),
            descendant@ != ancestor@,
            flags@.len() == n,
            flags@[start as int],
            forall|i: int|
                #![trigger flags@[i]]
                0 <= i < n && flags@[i] ==> descends(all, all[i].sha, descendant@) && place_of(
                    all,
                    all[i].sha,
                ) == Some(i),
            forall|i: usize| #[trigger] pending@.contains(i) ==> i < n && flags@[i as int],
            forall|i: int|
                #![trigger flags@[i]]
                0 <= i < n && flags@[i] ==> pending@.contains(i as usize) || is_spent(
                    all,
                    ancestor@,
                    flags@,
                    i,
                    all[i].parents.len() as int,
                ),
        decreases 2 * (n - marked(flags@).len()) + pending@.len(),
    {
        let ghost before = pending@;
        let ghost before_flags = flags@;
        assert(before.contains(before.last()));
        let at: usize = pending.pop().unwrap();
        let ghost popped = pending@;
        proof {
            assert forall|i: usize| #[trigger] before.contains(i) implies popped.contains(i) || i
                == at by {
                let j = choose|j: int| 0 <= j < before.len() && before[j] == i;
                if j < popped.len() {
                    assert(popped[j] == i);
                }
            }
            assert forall|i: usize| #[trigger] popped.contains(i) implies before.contains(i) by {
                let j = choose|j: int| 0 <= j < popped.len() && popped[j] == i;
                assert(before[j] == i);
            }
            assert(flags@[at as int]);
            assert(all[at as int] == snapshots@[at as int]@);
        }
        if expand(snapshots, at, ancestor, &mut flags, &mut pending) {
            proof {
                assert(is_parent(all, all[at as int].sha, ancestor@));
                lemma_descends_self(all, ancestor@);
                lemma_descends_parent(all, ancestor@, ancestor@, all[at as int].sha);
                lemma_descends_chains(all, ancestor@, all[at as int].sha, descendant@);
            }
            return true;
        }
        proof {
            lemma_marked_len(before_flags);
            lemma_marked_len(flags@);
            assert(popped.len() == before.len() - 1);
            assert(marked(flags@).len() - marked(before_flags).len() == pending@.len()
                - popped.len());
            assert(marked(before_flags).subset_of(marked(flags@)));
            vstd::set_lib::lemma_len_subset(marked(before_flags), marked(flags@));
            assert forall|i: int| #![trigger flags@[i]] 0 <= i < n && flags@[i] implies descends(
                all,
                all[i].sha,
                descendant@,
            ) && place_of(all, all[i].sha) == Some(i) by {
                assert(all[i] == snapshots@[i]@);
                if !before_flags[i] {
                    assert(is_parent(all, all[at as int].sha, all[i].sha));
                    lemma_descends_self(all, all[i].sha);
                    lemma_descends_parent(all, all[i].sha, all[i].sha, all[at as int].sha);
                    lemma_descends_chains(all, all[i].sha, all[at as int].sha, descendant@);
                }
            }
            assert forall|i: int| #![trigger flags@[i]] 0 <= i < n && flags@[i] implies pending@.contains(
                i as usize,
            ) || is_spent(all, ancestor@, flags@, i, all[i].parents.len() as int) by {
                if before_flags[i] && i != at {
                    if before.contains(i as usize) {
                        assert(popped.contains(i as usize));
                    } else {
                        assert(is_spent(
                            all,
                            ancestor@,
                            before_flags,
                            i,
                            all[i].parents.len() as int,
                        ));
                        assert forall|p: int|
                            #![trigger all[i].parents[p]]
                            0 <= p < all[i].parents.len() implies all[i].parents[p] != ancestor@
                            && (place_of(all, all[i].parents[p]) matches Some(k) ==> flags@[k]) by {
                            lemma_place_of(all, all[i].parents[p]);
                        }
                    }
                }
            }
        }
    }
    proof {
        if descends(all, ancestor@, descendant@) {
            let path = choose|path: Seq<Text>| #[trigger]
                is_walk(all, path) && path[0] == descendant@ && path.last() == ancestor@;
            let seen = marked(flags@);
            assert forall|i: int, parent: Text|
                seen.contains(i) && #[trigger] all[i].parents.contains(parent) implies parent
                != ancestor@ && (place_of(all, parent) matches Some(k) ==> seen.contains(k)) by {
                let p = choose|p: int| 0 <= p < all[i].parents.len() && all[i].parents[p] == parent;
                assert(flags@[i]);
                assert(is_spent(all, ancestor@, flags@, i, all[i].parents.len() as int));
                assert(all[i].parents[p] == parent);
                lemma_place_of(all, parent);
            }
            assert(seen.contains(start as int));
            lemma_closed(all, seen, ancestor@, path);
        }
    }
    false
}

} // verus!
