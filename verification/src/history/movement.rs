//! Where an exception entry of the first endpoint stands at the last one,
//! over every line of commits between them.

use vstd::prelude::*;

use super::data::{Address, AddressView, MovementKind, Snapshot, SnapshotView};
use super::identity::{mapped_address, Transition, TransitionView};
use super::transitions::{evidence_for, find_place, place_of, LinkView, Transitions};
use crate::text::Text;

verus! {

/// How strong the evidence of a movement is: none, one file, a directory.
pub open spec fn strength(kind: Option<MovementKind>) -> int {
    match kind {
        None => 0,
        Some(MovementKind::ExactFile) => 1,
        Some(MovementKind::Directory) => 2,
    }
}

/// The stronger evidence.
pub open spec fn stronger(a: Option<MovementKind>, b: Option<MovementKind>) -> Option<MovementKind> {
    if strength(a) >= strength(b) {
        a
    } else {
        b
    }
}

/// Adding up evidence does not depend on the order of the steps.
pub proof fn lemma_stronger(
    a: Option<MovementKind>,
    b: Option<MovementKind>,
    c: Option<MovementKind>,
)
    ensures
        stronger(a, b) == stronger(b, a),
        stronger(a, stronger(b, c)) == stronger(stronger(a, b), c),
        stronger(a, a) == a,
        stronger(a, None) == a,
{
}

/// The evidence of a movement in two steps.
pub fn movement(inherited: Option<MovementKind>, current: Option<MovementKind>) -> (r: Option<
    MovementKind,
>)
    ensures
        r == stronger(inherited, current),
{
    match (inherited, current) {
        (Some(MovementKind::Directory), _) => inherited,
        (_, Some(MovementKind::Directory)) => current,
        (_, Some(_)) => current,
        _ => inherited,
    }
}

/// The place of a parent among the commits from `from` up to `i`.
pub open spec fn place_since(
    snapshots: Seq<SnapshotView>,
    from: int,
    i: int,
    parent: Text,
) -> Option<int> {
    match place_of(snapshots.take(i), parent) {
        Some(k) => if from <= k < i {
            Some(k)
        } else {
            None
        },
        None => None,
    }
}

/// The step to commit `i` from its parent `p`, at which the address is
/// `previous` and the evidence `so_far`, gives the address and the evidence.
pub open spec fn is_step(
    snapshots: Seq<SnapshotView>,
    links: Seq<LinkView>,
    from: int,
    i: int,
    p: int,
    previous: MappingView,
    next: MappingView,
) -> bool {
    &&& 0 <= p < snapshots[i].parents.len()
    &&& place_since(snapshots, from, i, snapshots[i].parents[p]) is Some
    &&& match evidence_for(links, snapshots[i].parents[p], snapshots[i].sha) {
        Some(t) => next == stepped(t, previous),
        None => false,
    }
}

/// What a mapping of a parent becomes at the commit.
pub open spec fn stepped(t: TransitionView, m: MappingView) -> MappingView {
    MappingView {
        address: mapped_address(t, m.address).0,
        kind: stronger(m.kind, mapped_address(t, m.address).1),
    }
}

/// Some line of commits from `from` to `i` takes the address `start` to the
/// address of `found`, with its evidence.
pub open spec fn goes_to(
    snapshots: Seq<SnapshotView>,
    links: Seq<LinkView>,
    from: int,
    start: AddressView,
    i: int,
    found: MappingView,
) -> bool
    decreases i,
{
    if i <= from {
        i == from && found == (MappingView { address: start, kind: None })
    } else {
        exists|p: int, previous: MappingView|
            {
                &&& #[trigger] is_step(snapshots, links, from, i, p, previous, found)
                &&& 0 <= place_since(snapshots, from, i, snapshots[i].parents[p]).unwrap() < i
                &&& goes_to(
                    snapshots,
                    links,
                    from,
                    start,
                    place_since(snapshots, from, i, snapshots[i].parents[p]).unwrap(),
                    previous,
                )
            }
    }
}

/// An address that is reached, with the strongest evidence for it.
#[derive(Debug)]
pub struct Mapping {
    pub address: Address,
    pub kind: Option<MovementKind>,
}

pub struct MappingView {
    pub address: AddressView,
    pub kind: Option<MovementKind>,
}

impl View for Mapping {
    type V = MappingView;

    open spec fn view(&self) -> MappingView {
        MappingView { address: self.address@, kind: self.kind }
    }
}

impl DeepView for Mapping {
    type V = MappingView;

    open spec fn deep_view(&self) -> MappingView {
        self@
    }
}

/// No address occurs twice.
pub open spec fn all_distinct(list: Seq<MappingView>) -> bool {
    forall|i: int, j: int|
        #![trigger list[i], list[j]]
        0 <= i < j < list.len() ==> list[i].address != list[j].address
}

/// The list holds the address with evidence at least as strong.
pub open spec fn covers(
    list: Seq<MappingView>,
    address: AddressView,
    kind: Option<MovementKind>,
) -> bool {
    exists|j: int|
        #![trigger list[j]]
        0 <= j < list.len() && list[j].address == address && strength(kind) <= strength(
            list[j].kind,
        )
}

/// The list holds each address that is reached at commit `i`, once, with the
/// strongest evidence for it.
pub open spec fn are_mappings(
    snapshots: Seq<SnapshotView>,
    links: Seq<LinkView>,
    from: int,
    start: AddressView,
    i: int,
    list: Seq<MappingView>,
) -> bool {
    &&& all_distinct(list)
    &&& forall|j: int|
        #![trigger list[j]]
        0 <= j < list.len() ==> goes_to(snapshots, links, from, start, i, list[j])
    &&& forall|found: MappingView| #[trigger]
        goes_to(snapshots, links, from, start, i, found) ==> covers(
            list,
            found.address,
            found.kind,
        )
}

proof fn lemma_covers_weaker(
    list: Seq<MappingView>,
    address: AddressView,
    kind: Option<MovementKind>,
    weaker: Option<MovementKind>,
)
    requires
        covers(list, address, kind),
        strength(weaker) <= strength(kind),
    ensures
        covers(list, address, weaker),
{
    let j = choose|j: int|
        #![trigger list[j]]
        0 <= j < list.len() && list[j].address == address && strength(kind) <= strength(
            list[j].kind,
        );
    assert(list[j].address == address);
}

/// Adds an address to the list, or evidence to the address.
fn merge(list: &mut Vec<Mapping>, address: Address, kind: Option<MovementKind>)
    requires
        all_distinct(old(list).deep_view()),
    ensures
        all_distinct(final(list).deep_view()),
        forall|j: int|
            #![trigger final(list).deep_view()[j]]
            0 <= j < final(list).deep_view().len() ==> old(list).deep_view().contains(
                final(list).deep_view()[j],
            ) || final(list).deep_view()[j] == (MappingView { address: address@, kind }),
        covers(final(list).deep_view(), address@, kind),
        forall|a: AddressView, k: Option<MovementKind>| #[trigger]
            covers(old(list).deep_view(), a, k) ==> covers(final(list).deep_view(), a, k),
{
    let ghost before = list.deep_view();
    let ghost item = MappingView { address: address@, kind };
    let mut i: usize = 0;
    while i < list.len()
        invariant
            i <= list@.len(),
            list.deep_view() == before,
            before == old(list).deep_view(),
            item == (MappingView { address: address@, kind }),
            all_distinct(before),
            forall|j: int| #![trigger before[j]] 0 <= j < i ==> before[j].address != address@,
        decreases list@.len() - i,
    {
        assert(before[i as int] == list@[i as int]@);
        if list[i].address.equals(&address) {
            let merged = movement(list[i].kind, kind);
            let held = list[i].address.clone();
            list.set(i, Mapping { address: held, kind: merged });
            proof {
                let after = list.deep_view();
                let changed = MappingView { address: address@, kind: merged };
                assert(after =~= before.update(i as int, changed));
                assert(before.contains(before[i as int]));
                assert forall|j: int| #![trigger after[j]] 0 <= j < after.len() implies before.contains(
                    after[j],
                ) || after[j] == item by {
                    if j != i {
                        assert(before[j] == after[j]);
                    } else if merged != kind {
                        assert(after[j] == before[i as int]);
                    }
                }
                assert forall|a: AddressView, k: Option<MovementKind>| #[trigger]
                    covers(before, a, k) implies covers(after, a, k) by {
                    let j = choose|j: int|
                        #![trigger before[j]]
                        0 <= j < before.len() && before[j].address == a && strength(k)
                            <= strength(before[j].kind);
                    assert(after[j].address == a);
                }
                assert(after[i as int] == changed);
                assert forall|p: int, q: int|
                    #![trigger after[p], after[q]]
                    0 <= p < q < after.len() implies after[p].address != after[q].address by {
                    assert(before[p].address != before[q].address);
                }
            }
            return;
        }
        i += 1;
    }
    list.push(Mapping { address, kind });
    proof {
        let after = list.deep_view();
        assert(after =~= before.push(item));
        assert(after[before.len() as int] == item);
        assert forall|j: int| #![trigger after[j]] 0 <= j < after.len() implies before.contains(
            after[j],
        ) || after[j] == item by {
            if j < before.len() {
                assert(before[j] == after[j]);
            }
        }
        assert forall|a: AddressView, k: Option<MovementKind>| #[trigger]
            covers(before, a, k) implies covers(after, a, k) by {
            let j = choose|j: int|
                #![trigger before[j]]
                0 <= j < before.len() && before[j].address == a && strength(k) <= strength(
                    before[j].kind,
                );
            assert(after[j].address == a);
        }
        assert forall|p: int, q: int|
            #![trigger after[p], after[q]]
            0 <= p < q < after.len() implies after[p].address != after[q].address by {
            if q < before.len() {
                assert(before[p].address != before[q].address);
            } else {
                assert(before[p].address != address@);
            }
        }
    }
}

/// Takes the mappings of a parent to the commit.
fn inherit(list: &mut Vec<Mapping>, parent: &Vec<Mapping>, t: &Transition)
    requires
        all_distinct(old(list).deep_view()),
    ensures
        all_distinct(final(list).deep_view()),
        forall|j: int|
            #![trigger final(list).deep_view()[j]]
            0 <= j < final(list).deep_view().len() ==> old(list).deep_view().contains(
                final(list).deep_view()[j],
            ) || (exists|q: int|
                #![trigger parent.deep_view()[q]]
                0 <= q < parent.deep_view().len() && final(list).deep_view()[j] == stepped(
                    t@,
                    parent.deep_view()[q],
                )),
        forall|q: int|
            #![trigger parent.deep_view()[q]]
            0 <= q < parent.deep_view().len() ==> covers(
                final(list).deep_view(),
                stepped(t@, parent.deep_view()[q]).address,
                stepped(t@, parent.deep_view()[q]).kind,
            ),
        forall|a: AddressView, k: Option<MovementKind>| #[trigger]
            covers(old(list).deep_view(), a, k) ==> covers(final(list).deep_view(), a, k),
{
    let ghost before = list.deep_view();
    let ghost given = parent.deep_view();
    let mut i: usize = 0;
    while i < parent.len()
        invariant
            i <= parent@.len(),
            given == parent.deep_view(),
            before == old(list).deep_view(),
            all_distinct(list.deep_view()),
            forall|j: int|
                #![trigger list.deep_view()[j]]
                0 <= j < list.deep_view().len() ==> before.contains(list.deep_view()[j]) || (
                exists|q: int|
                    #![trigger given[q]]
                    0 <= q < i && list.deep_view()[j] == stepped(t@, given[q])),
            forall|q: int|
                #![trigger given[q]]
                0 <= q < i ==> covers(
                    list.deep_view(),
                    stepped(t@, given[q]).address,
                    stepped(t@, given[q]).kind,
                ),
            forall|a: AddressView, k: Option<MovementKind>| #[trigger]
                covers(before, a, k) ==> covers(list.deep_view(), a, k),
        decreases parent@.len() - i,
    {
        assert(given[i as int] == parent@[i as int]@);
        let (mapped, moved) = t.map_address(&parent[i].address);
        let kind = movement(parent[i].kind, moved);
        let ghost here = list.deep_view();
        let ghost step = stepped(t@, given[i as int]);
        merge(list, mapped, kind);
        proof {
            let now = list.deep_view();
            assert forall|j: int| #![trigger now[j]] 0 <= j < now.len() implies before.contains(
                now[j],
            ) || (exists|q: int|
                #![trigger given[q]]
                0 <= q < i + 1 && now[j] == stepped(t@, given[q])) by {
                if here.contains(now[j]) {
                    let m = choose|m: int| 0 <= m < here.len() && here[m] == now[j];
                    assert(here[m] == now[j]);
                } else {
                    assert(now[j] == step);
                    assert(given[i as int] == given[i as int]);
                }
            }
        }
        i += 1;
    }
}

/// The tables hold the mappings of the commits from `from` on.
spec fn are_tables(
    snapshots: Seq<SnapshotView>,
    links: Seq<LinkView>,
    from: int,
    start: AddressView,
    tables: Seq<Vec<Mapping>>,
) -> bool {
    forall|k: int|
        #![trigger tables[k]]
        0 <= k < tables.len() ==> are_mappings(
            snapshots,
            links,
            from,
            start,
            from + k,
            tables[k].deep_view(),
        )
}

/// The list covers what comes through the parent `p`.
spec fn is_covered_through(
    snapshots: Seq<SnapshotView>,
    links: Seq<LinkView>,
    from: int,
    start: AddressView,
    i: int,
    p: int,
    list: Seq<MappingView>,
) -> bool {
    forall|previous: MappingView, next: MappingView| #[trigger]
        is_step(snapshots, links, from, i, p, previous, next) && goes_to(
            snapshots,
            links,
            from,
            start,
            place_since(snapshots, from, i, snapshots[i].parents[p]).unwrap(),
            previous,
        ) ==> covers(list, next.address, next.kind)
}

fn commit_mappings(
    snapshots: &Vec<Snapshot>,
    transitions: &Transitions,
    from: usize,
    Ghost(start): Ghost<AddressView>,
    tables: &Vec<Vec<Mapping>>,
    i: usize,
) -> (r: Vec<Mapping>)
    requires
        from < i < snapshots@.len(),
        tables@.len() == i - from,
        are_tables(snapshots.deep_view(), transitions@, from as int, start, tables@),
    ensures
        are_mappings(
            snapshots.deep_view(),
            transitions@,
            from as int,
            start,
            i as int,
            r.deep_view(),
        ),
{
    let ghost all = snapshots.deep_view();
    let ghost links = transitions@;
    let ghost parents = snapshots@[i as int]@.parents;
    let mut list: Vec<Mapping> = Vec::new();
    let mut p: usize = 0;
    while p < snapshots[i].parents.len()
        invariant
            from < i < snapshots@.len(),
            tables@.len() == i - from,
            all == snapshots.deep_view(),
            links == transitions@,
            parents == snapshots@[i as int]@.parents,
            parents.len() == snapshots@[i as int].parents@.len(),
            p <= parents.len(),
            are_tables(all, links, from as int, start, tables@),
            all_distinct(list.deep_view()),
            forall|j: int|
                #![trigger list.deep_view()[j]]
                0 <= j < list.deep_view().len() ==> goes_to(
                    all,
                    links,
                    from as int,
                    start,
                    i as int,
                    list.deep_view()[j],
                ),
            forall|q: int|
                0 <= q < p ==> #[trigger] is_covered_through(
                    all,
                    links,
                    from as int,
                    start,
                    i as int,
                    q,
                    list.deep_view(),
                ),
        decreases parents.len() - p,
    {
        assert(all[i as int] == snapshots@[i as int]@);
        assert(parents[p as int] == snapshots@[i as int].parents@[p as int]@);
        let parent = snapshots[i].parents[p].as_str();
        let ghost before = list.deep_view();
        match (
            find_place(snapshots, i, parent),
            transitions.get(parent, snapshots[i].sha.as_str()),
        ) {
            (Some(k), Some(t)) => {
                if k >= from {
                    let ghost held = tables@[k - from].deep_view();
                    inherit(&mut list, &tables[k - from], t);
                    proof {
                        let now = list.deep_view();
                        assert(place_since(all, from as int, i as int, parents[p as int]) == Some(
                            k as int,
                        ));
                        assert(are_mappings(all, links, from as int, start, k as int, held));
                        assert forall|j: int| #![trigger now[j]] 0 <= j < now.len() implies goes_to(
                            all,
                            links,
                            from as int,
                            start,
                            i as int,
                            now[j],
                        ) by {
                            if before.contains(now[j]) {
                                let m = choose|m: int| 0 <= m < before.len() && before[m] == now[j];
                                assert(before[m] == now[j]);
                            } else {
                                let q = choose|q: int|
                                    #![trigger held[q]]
                                    0 <= q < held.len() && now[j] == stepped(t@, held[q]);
                                assert(is_step(
                                    all,
                                    links,
                                    from as int,
                                    i as int,
                                    p as int,
                                    held[q],
                                    now[j],
                                ));
                            }
                        }
                        assert forall|previous: MappingView, next: MappingView| #[trigger]
                            is_step(all, links, from as int, i as int, p as int, previous, next)
                                && goes_to(
                                all,
                                links,
                                from as int,
                                start,
                                k as int,
                                previous,
                            ) implies covers(now, next.address, next.kind) by {
                            assert(covers(held, previous.address, previous.kind));
                            let q = choose|q: int|
                                #![trigger held[q]]
                                0 <= q < held.len() && held[q].address == previous.address
                                    && strength(previous.kind) <= strength(held[q].kind);
                            lemma_covers_weaker(
                                now,
                                stepped(t@, held[q]).address,
                                stepped(t@, held[q]).kind,
                                next.kind,
                            );
                        }
                    }
                }
            },
            _ => {},
        }
        proof {
            let now = list.deep_view();
            assert forall|q: int| 0 <= q < p + 1 implies #[trigger] is_covered_through(
                all,
                links,
                from as int,
                start,
                i as int,
                q,
                now,
            ) by {
                if q < p {
                    assert(is_covered_through(
                        all,
                        links,
                        from as int,
                        start,
                        i as int,
                        q,
                        before,
                    ));
                }
            }
        }
        p += 1;
    }
    proof {
        let found = list.deep_view();
        assert(all[i as int] == snapshots@[i as int]@);
        assert forall|next: MappingView| #[trigger]
            goes_to(all, links, from as int, start, i as int, next) implies covers(
            found,
            next.address,
            next.kind,
        ) by {
            let (q, previous) = choose|q: int, previous: MappingView|
                {
                    &&& #[trigger] is_step(
                        all,
                        links,
                        from as int,
                        i as int,
                        q,
                        previous,
                        next,
                    )
                    &&& 0 <= place_since(
                        all,
                        from as int,
                        i as int,
                        all[i as int].parents[q],
                    ).unwrap() < i
                    &&& goes_to(
                        all,
                        links,
                        from as int,
                        start,
                        place_since(
                            all,
                            from as int,
                            i as int,
                            all[i as int].parents[q],
                        ).unwrap(),
                        previous,
                    )
                };
            assert(is_covered_through(all, links, from as int, start, i as int, q, found));
        }
    }
    list
}

/// The addresses that an entry of commit `from_index` has at the last commit,
/// each once, with the strongest evidence for it.
pub fn mappings_at_to(
    snapshots: &Vec<Snapshot>,
    transitions: &Transitions,
    from_index: usize,
    address: &Address,
) -> (r: Vec<Mapping>)
    requires
        from_index < snapshots@.len(),
    ensures
        are_mappings(
            snapshots.deep_view(),
            transitions@,
            from_index as int,
            address@,
            snapshots@.len() - 1,
            r.deep_view(),
        ),
{
    let ghost all = snapshots.deep_view();
    let n: usize = snapshots.len();
    let mut first: Vec<Mapping> = Vec::new();
    first.push(Mapping { address: address.clone(), kind: None });
    proof {
        let list = first.deep_view();
        assert(list =~= seq![MappingView { address: address@, kind: None }]);
        assert forall|found: MappingView| #[trigger]
            goes_to(
                all,
                transitions@,
                from_index as int,
                address@,
                from_index as int,
                found,
            ) implies covers(list, found.address, found.kind) by {
            assert(list[0] == found);
        }
        assert(are_mappings(
            all,
            transitions@,
            from_index as int,
            address@,
            from_index as int,
            list,
        ));
    }
    if from_index + 1 == n {
        return first;
    }
    let mut tables: Vec<Vec<Mapping>> = Vec::new();
    tables.push(first);
    let mut i: usize = from_index + 1;
    while i < n - 1
        invariant
            n == snapshots@.len(),
            from_index < i <= n - 1,
            all == snapshots.deep_view(),
            tables@.len() == i - from_index,
            are_tables(all, transitions@, from_index as int, address@, tables@),
        decreases n - i,
    {
        let next = commit_mappings(
            snapshots,
            transitions,
            from_index,
            Ghost(address@),
            &tables,
            i,
        );
        let ghost before = tables@;
        tables.push(next);
        assert forall|k: int| #![trigger tables@[k]] 0 <= k < tables@.len() implies are_mappings(
            all,
            transitions@,
            from_index as int,
            address@,
            from_index + k,
            tables@[k].deep_view(),
        ) by {
            if k < before.len() {
                assert(tables@[k] == before[k]);
            }
        }
        i += 1;
    }
    commit_mappings(snapshots, transitions, from_index, Ghost(address@), &tables, i)
}

} // verus!
