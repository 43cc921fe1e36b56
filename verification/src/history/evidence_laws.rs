//! What counts as evidence between two commits, said of their files, entries and
//! findings one by one.

use vstd::prelude::*;

use super::data::{AddressView, SnapshotView};
use super::error::{failure_at, HistoryErrorView};
use super::evidence::{
    accounts_for, address_after, all_refined, carriers, carries_entry, descendants,
    directory_proven, entry_stands, has_address, is_refinement, lies_below, moved_with_directory,
    refined, same_but_path, sole_move, suggested, touches,
};
use super::git::{
    listing_fields, rename_records, Outcome, Rename, RenameKind, RenameView,
};
use super::identity::{below, substituted, Transition};
use super::identity_laws::{is_pattern, is_under};
use super::transitions::{
    all_links, ambiguous_at, is_ambiguity_error, is_ambiguous, is_first_ambiguous,
    is_first_arrival, is_first_refusal, is_refusal, is_transition, is_usable, lemma_place_of,
    links_before, only_in, parent_links, place_of,
};
use crate::order::{is_stable_sort, text_order, Order, Ranked};
use crate::path_start::PathStyle;
use crate::paths::{file_name, parent};
use crate::text::Text;
use crate::text_laws::lemma_same_text;

verus! {

// ---------------------------------------------------------------------------
// Directories
// ---------------------------------------------------------------------------

proof fn lemma_under_is_below(path: Text, directory: Text, rest: Text)
    ensures
        is_under(path, directory, rest) <==> below(path, directory) == Some(rest),
{
    if is_under(path, directory, rest) {
        assert(path.take(directory.len() as int) =~= directory);
        assert(path.skip(directory.len() as int) =~= rest);
    }
    if below(path, directory) == Some(rest) {
        assert(path =~= directory + rest);
    }
}

/// A path below one directory is carried to another by what follows the
/// directory in it, and to nothing where it does not lie there.
pub proof fn lemma_substitution_keeps_the_rest(path: Text, old: Text, new: Text, rest: Text)
    ensures
        is_under(path, old, rest) ==> substituted(path, old, new) == Some(new + rest)
            && lies_below(path, old),
        lies_below(path, old) ==> exists|rest: Text| #[trigger] is_under(path, old, rest),
        !lies_below(path, old) ==> substituted(path, old, new) is None && !is_under(
            path,
            old,
            rest,
        ),
{
    lemma_under_is_below(path, old, rest);
    if let Some(rest) = below(path, old) {
        lemma_under_is_below(path, old, rest);
        assert(is_under(path, old, rest));
    }
}

/// The rename at `k` is from `old` to `new`, and no other has either of them.
pub open spec fn is_sole_rename(renames: Seq<RenameView>, old: Text, new: Text, k: int) -> bool {
    &&& 0 <= k < renames.len()
    &&& renames[k].old == old
    &&& renames[k].new == new
    &&& forall|m: int|
        #![trigger renames[m]]
        0 <= m < renames.len() && m != k ==> renames[m].old != old && renames[m].new != new
}

/// The entries say the same but for their path, which is `path` in the second.
pub open spec fn is_at_path(a: AddressView, b: AddressView, path: Text) -> bool {
    b == (AddressView {
        severity: a.severity,
        registry: a.registry,
        path,
        match_kind: a.match_kind,
        unit: a.unit,
        rules: a.rules,
    })
}

/// A directory has moved only if every file below it did, each by a rename of
/// its own, and with the files every entry and every configured path below it.
/// Some file, some entry and some configured path show it.
pub proof fn lemma_moved_directory_took_all(
    old: SnapshotView,
    new: SnapshotView,
    renames: Seq<RenameView>,
    from: Text,
    to: Text,
    rest: Text,
    i: int,
)
    requires
        directory_proven(old, new, renames, from, to),
        rest.len() > 0 ==> rest[0] == '/',
    ensures
        old.blobs.dom().contains(from + rest) ==> exists|k: int| #[trigger]
            is_sole_rename(renames, from + rest, to + rest, k),
        new.blobs.dom().contains(to + rest) ==> exists|k: int| #[trigger]
            is_sole_rename(renames, from + rest, to + rest, k),
        0 <= i < old.entries.len() && old.entries[i].address.path == from + rest ==> exists|k: int|
            #![trigger new.entries[k]]
            0 <= k < new.entries.len() && is_at_path(
                old.entries[i].address,
                new.entries[k].address,
                to + rest,
            ),
        0 <= i < new.entries.len() && new.entries[i].address.path == to + rest ==> exists|k: int|
            #![trigger old.entries[k]]
            0 <= k < old.entries.len() && is_at_path(
                new.entries[i].address,
                old.entries[k].address,
                from + rest,
            ),
        old.config_paths.contains(from + rest) <==> new.config_paths.contains(to + rest),
        exists|k: int|
            #![trigger old.entries[k]]
            0 <= k < old.entries.len() && lies_below(old.entries[k].address.path, from),
        exists|k: int|
            #![trigger old.config_paths[k]]
            0 <= k < old.config_paths.len() && lies_below(old.config_paths[k], from),
        exists|path: Text| #[trigger] old.blobs.dom().contains(path) && lies_below(path, from),
{
    let a = from + rest;
    let b = to + rest;
    assert(is_under(a, from, rest));
    assert(is_under(b, to, rest));
    lemma_substitution_keeps_the_rest(a, from, to, rest);
    lemma_substitution_keeps_the_rest(b, to, from, rest);
    if old.blobs.dom().contains(a) {
        lemma_sole_rename(renames, a, b);
    }
    if new.blobs.dom().contains(b) {
        lemma_sole_rename(renames, a, b);
    }
    if 0 <= i < old.entries.len() && old.entries[i].address.path == a {
        let k = choose|k: int|
            #![trigger new.entries[k]]
            0 <= k < new.entries.len() && new.entries[k].address.path == b
                && same_but_path(
                old.entries[i].address,
                new.entries[k].address,
            );
        assert(is_at_path(old.entries[i].address, new.entries[k].address, b));
    }
    if 0 <= i < new.entries.len() && new.entries[i].address.path == b {
        let k = choose|k: int|
            #![trigger old.entries[k]]
            0 <= k < old.entries.len() && old.entries[k].address.path == a
                && same_but_path(
                new.entries[i].address,
                old.entries[k].address,
            );
        assert(is_at_path(new.entries[i].address, old.entries[k].address, a));
    }
    if old.config_paths.contains(a) {
        let k = choose|k: int| 0 <= k < old.config_paths.len() && old.config_paths[k] == a;
        assert(lies_below(old.config_paths[k], from));
    }
    if new.config_paths.contains(b) {
        let k = choose|k: int| 0 <= k < new.config_paths.len() && new.config_paths[k] == b;
        assert(lies_below(new.config_paths[k], to));
    }
    let all = descendants(old.blobs, from);
    assert(exists|path: Text| #[trigger] old.blobs.dom().contains(path) && lies_below(path, from))
        by {
        if forall|path: Text| #[trigger]
            old.blobs.dom().contains(path) ==> !lies_below(path, from) {
            assert(all =~= Set::<Text>::empty());
        }
    }
}

proof fn lemma_sole_rename(renames: Seq<RenameView>, a: Text, b: Text)
    requires
        sole_move(renames, a, b),
    ensures
        exists|k: int| #[trigger] is_sole_rename(renames, a, b, k),
{
    let k = choose|k: int|
        #![trigger renames[k]]
        0 <= k < renames.len() && renames[k].old == a && renames[k].new == b && (forall|j: int|
            #![trigger renames[j]]
            0 <= j < renames.len() && touches(renames[j], a, b) ==> j == k);
    assert(is_sole_rename(renames, a, b, k)) by {
        assert forall|m: int| #![trigger renames[m]] 0 <= m < renames.len() && m != k implies renames[m].old
            != a && renames[m].new != b by {
            if touches(renames[m], a, b) {
                assert(m == k);
            }
        }
    }
}

/// Where every file below the one directory moved alone below the other, and
/// every entry and configured path did, in both directions, and there is one of
/// each, the directory has moved.
pub proof fn lemma_all_took_the_directory(
    old: SnapshotView,
    new: SnapshotView,
    renames: Seq<RenameView>,
    from: Text,
    to: Text,
)
    requires
        descendants(old.blobs, from).len() == descendants(new.blobs, to).len(),
        descendants(old.blobs, from).len() > 0,
        forall|path: Text, rest: Text|
            old.blobs.dom().contains(path) && #[trigger] is_under(path, from, rest) ==> exists|
                k: int,
            | #[trigger]
                is_sole_rename(renames, path, to + rest, k),
        forall|path: Text, rest: Text|
            new.blobs.dom().contains(path) && #[trigger] is_under(path, to, rest) ==> exists|
                k: int,
            | #[trigger]
                is_sole_rename(renames, from + rest, path, k),
        forall|i: int, rest: Text|
            0 <= i < old.entries.len() && #[trigger] is_under(
                old.entries[i].address.path,
                from,
                rest,
            ) ==> exists|k: int|
                #![trigger new.entries[k]]
                0 <= k < new.entries.len() && is_at_path(
                    old.entries[i].address,
                    new.entries[k].address,
                    to + rest,
                ),
        forall|i: int, rest: Text|
            0 <= i < new.entries.len() && #[trigger] is_under(
                new.entries[i].address.path,
                to,
                rest,
            ) ==> exists|k: int|
                #![trigger old.entries[k]]
                0 <= k < old.entries.len() && is_at_path(
                    new.entries[i].address,
                    old.entries[k].address,
                    from + rest,
                ),
        forall|i: int, rest: Text|
            0 <= i < old.config_paths.len() && #[trigger] is_under(
                old.config_paths[i],
                from,
                rest,
            ) ==> new.config_paths.contains(to + rest),
        forall|i: int, rest: Text|
            0 <= i < new.config_paths.len() && #[trigger] is_under(
                new.config_paths[i],
                to,
                rest,
            ) ==> old.config_paths.contains(from + rest),
        exists|i: int, rest: Text|
            0 <= i < old.entries.len() && #[trigger] is_under(
                old.entries[i].address.path,
                from,
                rest,
            ),
        exists|i: int, rest: Text|
            0 <= i < old.config_paths.len() && #[trigger] is_under(
                old.config_paths[i],
                from,
                rest,
            ),
    ensures
        directory_proven(old, new, renames, from, to),
{
    assert forall|path: Text| #[trigger]
        old.blobs.dom().contains(path) && lies_below(path, from) implies sole_move(
        renames,
        path,
        substituted(path, from, to).unwrap(),
    ) by {
        let rest = below(path, from).unwrap();
        lemma_under_is_below(path, from, rest);
        assert(is_under(path, from, rest));
        let k = choose|k: int| #[trigger] is_sole_rename(renames, path, to + rest, k);
        assert(renames[k].old == path);
    }
    assert forall|path: Text| #[trigger]
        new.blobs.dom().contains(path) && lies_below(path, to) implies sole_move(
        renames,
        substituted(path, to, from).unwrap(),
        path,
    ) by {
        let rest = below(path, to).unwrap();
        lemma_under_is_below(path, to, rest);
        assert(is_under(path, to, rest));
        let k = choose|k: int| #[trigger] is_sole_rename(renames, from + rest, path, k);
        assert(renames[k].new == path);
    }
    assert forall|i: int|
        #![trigger old.entries[i]]
        0 <= i < old.entries.len() && lies_below(
            old.entries[i].address.path,
            from,
        ) implies entry_stands(
        new.entries,
        old.entries[i].address,
        substituted(old.entries[i].address.path, from, to).unwrap(),
    ) by {
        let rest = below(old.entries[i].address.path, from).unwrap();
        lemma_under_is_below(old.entries[i].address.path, from, rest);
        assert(is_under(old.entries[i].address.path, from, rest));
        let k = choose|k: int|
            #![trigger new.entries[k]]
            0 <= k < new.entries.len() && is_at_path(
                old.entries[i].address,
                new.entries[k].address,
                to + rest,
            );
        assert(new.entries[k].address.path == to + rest);
    }
    assert forall|i: int|
        #![trigger new.entries[i]]
        0 <= i < new.entries.len() && lies_below(
            new.entries[i].address.path,
            to,
        ) implies entry_stands(
        old.entries,
        new.entries[i].address,
        substituted(new.entries[i].address.path, to, from).unwrap(),
    ) by {
        let rest = below(new.entries[i].address.path, to).unwrap();
        lemma_under_is_below(new.entries[i].address.path, to, rest);
        assert(is_under(new.entries[i].address.path, to, rest));
        let k = choose|k: int|
            #![trigger old.entries[k]]
            0 <= k < old.entries.len() && is_at_path(
                new.entries[i].address,
                old.entries[k].address,
                from + rest,
            );
        assert(old.entries[k].address.path == from + rest);
    }
    assert forall|i: int|
        #![trigger old.config_paths[i]]
        0 <= i < old.config_paths.len() && lies_below(
            old.config_paths[i],
            from,
        ) implies new.config_paths.contains(
        substituted(old.config_paths[i], from, to).unwrap(),
    ) by {
        let rest = below(old.config_paths[i], from).unwrap();
        lemma_under_is_below(old.config_paths[i], from, rest);
        assert(is_under(old.config_paths[i], from, rest));
    }
    assert forall|i: int|
        #![trigger new.config_paths[i]]
        0 <= i < new.config_paths.len() && lies_below(
            new.config_paths[i],
            to,
        ) implies old.config_paths.contains(
        substituted(new.config_paths[i], to, from).unwrap(),
    ) by {
        let rest = below(new.config_paths[i], to).unwrap();
        lemma_under_is_below(new.config_paths[i], to, rest);
        assert(is_under(new.config_paths[i], to, rest));
    }
    let (i, rest) = choose|i: int, rest: Text|
        0 <= i < old.entries.len() && #[trigger] is_under(old.entries[i].address.path, from, rest);
    lemma_under_is_below(old.entries[i].address.path, from, rest);
    assert(lies_below(old.entries[i].address.path, from));
    let (k, more) = choose|k: int, more: Text|
        0 <= k < old.config_paths.len() && #[trigger] is_under(old.config_paths[k], from, more);
    lemma_under_is_below(old.config_paths[k], from, more);
    assert(lies_below(old.config_paths[k], from));
}

// ---------------------------------------------------------------------------
// The kind of a rename
// ---------------------------------------------------------------------------

/// The rename went along with a directory that moved: some rename keeps the name
/// of its file and changes its directory, that directory is proved to have
/// moved, and the rename is what that move makes of it.
pub open spec fn went_along(
    style: PathStyle,
    old: SnapshotView,
    new: SnapshotView,
    renames: Seq<RenameView>,
    rename: RenameView,
    k: int,
    from: Text,
    to: Text,
    rest: Text,
) -> bool {
    &&& 0 <= k < renames.len()
    &&& parent(style, renames[k].old) == Some(from)
    &&& parent(style, renames[k].new) == Some(to)
    &&& from != to
    &&& file_name(style, renames[k].old) == file_name(style, renames[k].new)
    &&& directory_proven(old, new, renames, from, to)
    &&& is_under(rename.old, from, rest)
    &&& rename.new == to + rest
}

/// A rename is evidence of a directory exactly when it went along with one that
/// is proved to have moved, or was so before. Its paths stay.
pub proof fn lemma_kind_of_a_rename(
    style: PathStyle,
    old: SnapshotView,
    new: SnapshotView,
    renames: Seq<RenameView>,
    rename: RenameView,
)
    ensures
        refined(style, old, new, renames, rename).old == rename.old,
        refined(style, old, new, renames, rename).new == rename.new,
        refined(style, old, new, renames, rename).kind == RenameKind::Directory <==> rename.kind
            == RenameKind::Directory || exists|k: int, from: Text, to: Text, rest: Text| #[trigger]
            went_along(style, old, new, renames, rename, k, from, to, rest),
{
    if moved_with_directory(style, old, new, renames, rename) {
        let k = choose|k: int|
            #![trigger renames[k]]
            0 <= k < renames.len() && accounts_for(style, old, new, renames, renames[k], rename);
        let (from, to) = suggested(style, renames[k]).unwrap();
        let rest = below(rename.old, from).unwrap();
        lemma_under_is_below(rename.old, from, rest);
        assert(went_along(style, old, new, renames, rename, k, from, to, rest));
    }
    if exists|k: int, from: Text, to: Text, rest: Text| #[trigger]
        went_along(style, old, new, renames, rename, k, from, to, rest) {
        let (k, from, to, rest) = choose|k: int, from: Text, to: Text, rest: Text| #[trigger]
            went_along(style, old, new, renames, rename, k, from, to, rest);
        lemma_under_is_below(rename.old, from, rest);
        assert(accounts_for(style, old, new, renames, renames[k], rename));
    }
}

/// The evidence of a transition has every rename that Git told of, with its
/// kind, and no other, ordered by the old path and then the new one.
pub proof fn lemma_every_rename_is_kept(
    style: PathStyle,
    old: SnapshotView,
    new: SnapshotView,
    renames: Seq<RenameView>,
    result: Seq<Rename>,
    i: int,
    j: int,
)
    requires
        is_refinement(style, old, new, renames, result),
    ensures
        result.len() == renames.len(),
        0 <= i < renames.len() ==> exists|k: int|
            #![trigger result[k]]
            0 <= k < result.len() && result[k]@ == refined(style, old, new, renames, renames[i]),
        0 <= i < result.len() ==> exists|k: int|
            #![trigger renames[k]]
            0 <= k < renames.len() && result[i]@ == refined(style, old, new, renames, renames[k]),
        0 <= i < j < result.len() ==> text_order(result[i]@.old, result[j]@.old) != Order::After,
        0 <= i < j < result.len() && result[i]@.old == result[j]@.old ==> text_order(
            result[i]@.new,
            result[j]@.new,
        ) != Order::After,
{
    let marked = choose|marked: Seq<Rename>| #[trigger]
        is_stable_sort(marked, result) && marked.map_values(|rename: Rename| rename@)
            == all_refined(style, old, new, renames);
    assert(marked.map_values(|rename: Rename| rename@).len() == renames.len());
    marked.to_multiset_ensures();
    result.to_multiset_ensures();
    assert forall|k: int| #![trigger marked[k]] 0 <= k < marked.len() implies marked[k]@ == refined(
        style,
        old,
        new,
        renames,
        renames[k],
    ) by {
        assert(marked.map_values(|rename: Rename| rename@)[k] == all_refined(
            style,
            old,
            new,
            renames,
        )[k]);
    }
    if 0 <= i < renames.len() {
        assert(marked.contains(marked[i]));
        assert(result.to_multiset().count(marked[i]) > 0);
        assert(result.contains(marked[i]));
        let k = choose|k: int| 0 <= k < result.len() && result[k] == marked[i];
        assert(result[k]@ == refined(style, old, new, renames, renames[i]));
    }
    if 0 <= i < result.len() {
        assert(result.contains(result[i]));
        assert(marked.to_multiset().count(result[i]) > 0);
        assert(marked.contains(result[i]));
        let k = choose|k: int| 0 <= k < marked.len() && marked[k] == result[i];
        assert(result[i]@ == refined(style, old, new, renames, renames[k]));
    }
    if 0 <= i < j < result.len() {
        assert(result[i].rank(&result[j]) != Order::After);
        lemma_same_text(result[i]@.old);
    }
}

// ---------------------------------------------------------------------------
// The renames of entries
// ---------------------------------------------------------------------------

/// The rename takes the entry at `a` to `b`: its registry file was renamed, or
/// the file that it names. A glob names no file.
pub open spec fn renames_entry(rename: RenameView, a: AddressView, b: AddressView) -> bool {
    &&& b.severity == a.severity
    &&& b.match_kind == a.match_kind
    &&& b.unit == a.unit
    &&& b.rules == a.rules
    &&& a.registry == rename.old ==> b.registry == rename.new
    &&& a.registry != rename.old ==> b.registry == a.registry
    &&& a.path == rename.old && !is_pattern(a) ==> b.path == rename.new
    &&& !(a.path == rename.old && !is_pattern(a)) ==> b.path == a.path
    &&& a != b
}

/// A rename of a file is evidence for entries exactly when it took one to where
/// an entry stands; one of a directory always is.
pub proof fn lemma_rename_takes_an_entry(old: SnapshotView, new: SnapshotView, rename: RenameView)
    ensures
        carries_entry(old, new, rename) <==> rename.kind == RenameKind::Directory || exists|
            i: int,
            k: int,
        |
            #![trigger old.entries[i], new.entries[k]]
            0 <= i < old.entries.len() && 0 <= k < new.entries.len() && renames_entry(
                rename,
                old.entries[i].address,
                new.entries[k].address,
            ),
{
    reveal_strlit("glob");
    assert("glob"@ =~= seq!['g', 'l', 'o', 'b']);
    if carries_entry(old, new, rename) && rename.kind != RenameKind::Directory {
        let i = choose|i: int|
            #![trigger old.entries[i]]
            0 <= i < old.entries.len() && address_after(old.entries[i].address, rename)
                != old.entries[i].address && has_address(
                new.entries,
                address_after(old.entries[i].address, rename),
            );
        let b = address_after(old.entries[i].address, rename);
        let k = choose|k: int|
            #![trigger new.entries[k]]
            0 <= k < new.entries.len() && new.entries[k].address == b;
        assert(renames_entry(rename, old.entries[i].address, new.entries[k].address));
    }
    if exists|i: int, k: int|
        #![trigger old.entries[i], new.entries[k]]
        0 <= i < old.entries.len() && 0 <= k < new.entries.len() && renames_entry(
            rename,
            old.entries[i].address,
            new.entries[k].address,
        ) {
        let (i, k) = choose|i: int, k: int|
            #![trigger old.entries[i], new.entries[k]]
            0 <= i < old.entries.len() && 0 <= k < new.entries.len() && renames_entry(
                rename,
                old.entries[i].address,
                new.entries[k].address,
            );
        assert(address_after(old.entries[i].address, rename) == new.entries[k].address);
        assert(has_address(new.entries, address_after(old.entries[i].address, rename)));
    }
}

/// The renames of entries are those of the evidence that take an entry or are
/// of a directory, in the same order.
pub proof fn lemma_renames_of_entries_are_chosen(
    old: SnapshotView,
    new: SnapshotView,
    renames: Seq<RenameView>,
    rename: RenameView,
)
    ensures
        carriers(old, new, renames).contains(rename) <==> renames.contains(rename)
            && carries_entry(old, new, rename),
        carriers(old, new, renames).len() <= renames.len(),
        renames.len() > 0 && carries_entry(old, new, renames.last()) ==> carriers(
            old,
            new,
            renames,
        ).last() == renames.last() && carriers(old, new, renames).len() == carriers(
            old,
            new,
            renames.drop_last(),
        ).len() + 1,
    decreases renames.len(),
{
    let all = carriers(old, new, renames);
    if renames.len() > 0 {
        let head = renames.drop_last();
        let rest = carriers(old, new, head);
        lemma_renames_of_entries_are_chosen(old, new, head, rename);
        if all.contains(rename) {
            let m = choose|m: int| 0 <= m < all.len() && all[m] == rename;
            if m < rest.len() {
                assert(rest[m] == rename);
                let k = choose|k: int| 0 <= k < head.len() && head[k] == rename;
                assert(renames[k] == rename);
            } else {
                assert(renames[renames.len() - 1] == rename);
            }
        }
        if renames.contains(rename) && carries_entry(old, new, rename) {
            let k = choose|k: int| 0 <= k < renames.len() && renames[k] == rename;
            if k < head.len() {
                assert(head[k] == rename);
                let m = choose|m: int| 0 <= m < rest.len() && rest[m] == rename;
                assert(all[m] == rename);
            } else {
                assert(all[rest.len() as int] == rename);
            }
        }
    } else {
        assert(all.len() == 0);
    }
}

// ---------------------------------------------------------------------------
// Ambiguity
// ---------------------------------------------------------------------------

/// A file that an entry or a finding names stands at `path` with the blob in the
/// one commit, and the other has no file there.
pub open spec fn stands_only_in(
    here: SnapshotView,
    there: SnapshotView,
    path: Text,
    blob: Text,
) -> bool {
    &&& here.blobs.dom().contains(path) && here.blobs[path] == blob
    &&& !there.blobs.dom().contains(path)
    &&& (exists|i: int|
        #![trigger here.entries[i]]
        0 <= i < here.entries.len() && here.entries[i].address.path == path) || (exists|i: int|
        #![trigger here.findings[i]]
        0 <= i < here.findings.len() && here.findings[i].address.path == path)
}

proof fn lemma_stands_only(here: SnapshotView, there: SnapshotView, path: Text, blob: Text)
    ensures
        only_in(here, there, path, blob) <==> stands_only_in(here, there, path, blob),
{
}

/// Where files of one content left and came, more than one of either is
/// ambiguous.
pub proof fn lemma_several_moves_are_ambiguous(
    old: SnapshotView,
    new: SnapshotView,
    blob: Text,
    gone: Text,
    come: Text,
    other: Text,
)
    requires
        stands_only_in(old, new, gone, blob),
        stands_only_in(new, old, come, blob),
        other != gone && stands_only_in(old, new, other, blob) || other != come && stands_only_in(
            new,
            old,
            other,
            blob,
        ),
    ensures
        is_ambiguous(old, new, blob),
{
    lemma_stands_only(old, new, gone, blob);
    lemma_stands_only(new, old, come, blob);
    lemma_stands_only(old, new, other, blob);
    lemma_stands_only(new, old, other, blob);
    assert(only_in(old, new, gone, blob));
    assert(only_in(new, old, come, blob));
}

/// Where at most one file of one content left and at most one came, or none left
/// or none came, nothing is ambiguous.
pub proof fn lemma_single_move_is_clear(
    old: SnapshotView,
    new: SnapshotView,
    blob: Text,
    gone: Text,
    come: Text,
)
    requires
        (forall|path: Text| #[trigger]
            stands_only_in(old, new, path, blob) ==> path == gone) && (forall|path: Text|
            #[trigger]
            stands_only_in(new, old, path, blob) ==> path == come) || (forall|path: Text|
            !#[trigger] stands_only_in(old, new, path, blob)) || (forall|path: Text|
            !#[trigger] stands_only_in(new, old, path, blob)),
    ensures
        !is_ambiguous(old, new, blob),
{
    assert forall|path: Text| #[trigger] only_in(old, new, path, blob) implies stands_only_in(
        old,
        new,
        path,
        blob,
    ) by {
        lemma_stands_only(old, new, path, blob);
    }
    assert forall|path: Text| #[trigger] only_in(new, old, path, blob) implies stands_only_in(
        new,
        old,
        path,
        blob,
    ) by {
        lemma_stands_only(new, old, path, blob);
    }
}

/// A refusal of ambiguous evidence names the commit and, of the files of the
/// first ambiguous content that came with it, the first one.
pub proof fn lemma_ambiguity_is_named(
    range: Text,
    old: SnapshotView,
    new: SnapshotView,
    error: HistoryErrorView,
) -> (r: (Text, Text))
    requires
        is_ambiguity_error(range, old, new, error),
    ensures
        is_ambiguous(old, new, r.0),
        forall|blob: Text| #[trigger]
            is_ambiguous(old, new, blob) ==> text_order(r.0, blob) != Order::After,
        stands_only_in(new, old, r.1, r.0),
        forall|path: Text| #[trigger]
            stands_only_in(new, old, path, r.0) ==> text_order(r.1, path) != Order::After,
        error.range == Some(range),
        error.cause == "revision "@ + new.sha + ": "@ + ("ambiguous rename evidence for "@ + r.1),
{
    let (blob, path) = choose|blob: Text, path: Text| #[trigger]
        is_first_arrival(old, new, path, blob)
            && is_first_ambiguous(old, new, blob) && error == failure_at(
            range,
            new.sha,
            ambiguous_at(path),
        );
    lemma_stands_only(new, old, path, blob);
    assert forall|other: Text| #[trigger] stands_only_in(new, old, other, blob) implies text_order(
        path,
        other,
    ) != Order::After by {
        lemma_stands_only(new, old, other, blob);
    }
    (blob, path)
}

// ---------------------------------------------------------------------------
// Which commits are compared
// ---------------------------------------------------------------------------

proof fn lemma_parent_links_are_all(
    snapshots: Seq<SnapshotView>,
    parents: Seq<Text>,
    child: int,
    link: (int, int),
)
    ensures
        parent_links(snapshots, parents, child).len() <= parents.len(),
        parent_links(snapshots, parents, child).contains(link) <==> link.1 == child && exists|
            p: int,
        |
            #![trigger parents[p]]
            0 <= p < parents.len() && place_of(snapshots, parents[p]) == Some(link.0),
    decreases parents.len(),
{
    let all = parent_links(snapshots, parents, child);
    if parents.len() > 0 {
        let head = parents.drop_last();
        let rest = parent_links(snapshots, head, child);
        let last = parents.len() - 1;
        lemma_parent_links_are_all(snapshots, head, child, link);
        assert(parents[last] == parents.last());
        if all.contains(link) {
            let m = choose|m: int| 0 <= m < all.len() && all[m] == link;
            if m < rest.len() {
                assert(rest[m] == link);
                let p = choose|p: int|
                    #![trigger head[p]]
                    0 <= p < head.len() && place_of(snapshots, head[p]) == Some(link.0);
                assert(parents[p] == head[p]);
            }
        }
        if link.1 == child && exists|p: int|
            #![trigger parents[p]]
            0 <= p < parents.len() && place_of(snapshots, parents[p]) == Some(link.0) {
            let p = choose|p: int|
                #![trigger parents[p]]
                0 <= p < parents.len() && place_of(snapshots, parents[p]) == Some(link.0);
            if p < last {
                assert(head[p] == parents[p]);
                let m = choose|m: int| 0 <= m < rest.len() && rest[m] == link;
                assert(all[m] == link);
            } else {
                assert(all[rest.len() as int] == link);
            }
        }
    } else {
        assert(all.len() == 0);
    }
}

proof fn lemma_links_before_are_all(snapshots: Seq<SnapshotView>, end: int, link: (int, int))
    requires
        end <= snapshots.len(),
    ensures
        links_before(snapshots, end).contains(link) <==> 0 <= link.1 < end && parent_links(
            snapshots,
            snapshots[link.1].parents,
            link.1,
        ).contains(link),
    decreases end,
{
    let all = links_before(snapshots, end);
    if end > 0 {
        let rest = links_before(snapshots, end - 1);
        let more = parent_links(snapshots, snapshots[end - 1].parents, end - 1);
        lemma_links_before_are_all(snapshots, end - 1, link);
        lemma_parent_links_are_all(snapshots, snapshots[end - 1].parents, end - 1, link);
        if all.contains(link) {
            let m = choose|m: int| 0 <= m < all.len() && all[m] == link;
            if m < rest.len() {
                assert(rest[m] == link);
            } else {
                assert(more[m - rest.len()] == link);
            }
        }
        if rest.contains(link) {
            let m = choose|m: int| 0 <= m < rest.len() && rest[m] == link;
            assert(all[m] == link);
        }
        if more.contains(link) {
            let m = choose|m: int| 0 <= m < more.len() && more[m] == link;
            assert(all[rest.len() + m] == link);
        }
    } else {
        assert(all.len() == 0);
    }
}

/// Evidence is asked for between every commit and each of its parents in the
/// history, and between no others.
pub proof fn lemma_every_parent_is_compared(snapshots: Seq<SnapshotView>, k: int, i: int)
    ensures
        all_links(snapshots).contains((k, i)) <==> {
            &&& 0 <= i < snapshots.len()
            &&& 0 <= k < snapshots.len()
            &&& snapshots[i].parents.contains(snapshots[k].sha)
            &&& forall|m: int|
                #![trigger snapshots[m]]
                k < m < snapshots.len() ==> snapshots[m].sha != snapshots[k].sha
        },
{
    let n = snapshots.len() as int;
    lemma_links_before_are_all(snapshots, n, (k, i));
    if 0 <= i < n {
        let parents = snapshots[i].parents;
        lemma_parent_links_are_all(snapshots, parents, i, (k, i));
        if all_links(snapshots).contains((k, i)) {
            let p = choose|p: int|
                #![trigger parents[p]]
                0 <= p < parents.len() && place_of(snapshots, parents[p]) == Some(k);
            lemma_place_of(snapshots, parents[p]);
            assert(parents.contains(parents[p]));
        }
        if 0 <= k < n && parents.contains(snapshots[k].sha) && forall|m: int|
            #![trigger snapshots[m]]
            k < m < snapshots.len() ==> snapshots[m].sha != snapshots[k].sha {
            let p = choose|p: int| 0 <= p < parents.len() && parents[p] == snapshots[k].sha;
            lemma_place_of(snapshots, parents[p]);
            match place_of(snapshots, parents[p]) {
                Some(m) => {
                    if m < k {
                        assert(snapshots[k].sha != parents[p]);
                    }
                },
                None => {
                    assert(snapshots[k].sha != parents[p]);
                },
            }
            assert(place_of(snapshots, parents[p]) == Some(k));
        }
    }
}

// ---------------------------------------------------------------------------
// Refusals
// ---------------------------------------------------------------------------

/// Evidence can be used exactly when Git ran and succeeded, its listing is well
/// formed, and no content moved ambiguously.
pub proof fn lemma_what_can_be_used(old: SnapshotView, new: SnapshotView, outcome: Outcome)
    ensures
        is_usable(old, new, outcome) <==> {
            &&& outcome is Ok
            &&& outcome->Ok_0.success
            &&& rename_records(listing_fields(outcome->Ok_0.stdout@)) is Some
            &&& forall|blob: Text| !#[trigger] is_ambiguous(old, new, blob)
        },
{
}

/// A refusal of evidence names the range and says what was wrong. Unless Git
/// could not be run, it names the commit too.
pub proof fn lemma_refused_evidence_says_why(
    range: Text,
    old: SnapshotView,
    new: SnapshotView,
    outcome: Outcome,
    error: HistoryErrorView,
)
    requires
        is_refusal(range, old, new, outcome, error),
    ensures
        error.range == Some(range),
        outcome matches Err(reason) ==> error.cause == "Git is unavailable: "@ + reason@,
        outcome matches Ok(output) ==> !output.success ==> error.cause == "revision "@ + new.sha
            + ": "@ + "rename evidence is unavailable"@,
        outcome matches Ok(output) ==> output.success && rename_records(
            listing_fields(output.stdout@),
        ) is None ==> error.cause == "revision "@ + new.sha + ": "@
            + "Git returned malformed rename evidence"@,
        outcome matches Ok(output) ==> output.success && rename_records(
            listing_fields(output.stdout@),
        ) is Some ==> is_ambiguity_error(range, old, new, error),
{
    if let Ok(output) = outcome {
        if output.success && rename_records(listing_fields(output.stdout@)) is Some {
            let named = lemma_ambiguity_is_named(range, old, new, error);
        }
    }
}

/// Of several links without usable evidence, the first is refused.
pub proof fn lemma_first_refusal_comes_first(
    range: Text,
    snapshots: Seq<SnapshotView>,
    places: Seq<(int, int)>,
    outcomes: Seq<Outcome>,
    at: int,
    error: HistoryErrorView,
    other: int,
)
    requires
        is_first_refusal(range, snapshots, places, outcomes, at, error),
        0 <= other < places.len(),
        !is_usable(snapshots[places[other].0], snapshots[places[other].1], outcomes[other]),
    ensures
        at <= other,
        is_refusal(
            range,
            snapshots[places[at].0],
            snapshots[places[at].1],
            outcomes[at],
            error,
        ),
{
    if other < at {
        assert(is_usable(
            snapshots[places[other].0],
            snapshots[places[other].1],
            outcomes[other],
        ));
    }
}

/// The evidence of a link is what Git told of it: its renames, each with its
/// kind, and of these the ones that take entries.
pub proof fn lemma_evidence_is_what_git_told(
    style: PathStyle,
    old: SnapshotView,
    new: SnapshotView,
    outcome: Outcome,
    transition: Transition,
    rename: RenameView,
)
    requires
        is_transition(style, old, new, outcome, transition),
    ensures
        outcome is Ok && outcome->Ok_0.success,
        rename_records(listing_fields(outcome->Ok_0.stdout@)) is Some,
        transition@.style == style,
        ({
            let told = rename_records(listing_fields(outcome->Ok_0.stdout@)).unwrap();
            transition@.renames.contains(rename) <==> exists|k: int|
                #![trigger told[k]]
                0 <= k < told.len() && rename == refined(style, old, new, told, told[k])
        }),
        transition@.entry_renames.contains(rename) <==> transition@.renames.contains(rename)
            && carries_entry(old, new, rename),
{
    let told = rename_records(listing_fields(outcome->Ok_0.stdout@)).unwrap();
    let kept = transition.renames@;
    let shown = transition@.renames;
    lemma_renames_of_entries_are_chosen(old, new, shown, rename);
    lemma_every_rename_is_kept(style, old, new, told, kept, 0, 0);
    if shown.contains(rename) {
        let i = choose|i: int| 0 <= i < shown.len() && shown[i] == rename;
        lemma_every_rename_is_kept(style, old, new, told, kept, i, i);
        assert(kept[i]@ == rename);
    }
    if exists|k: int|
        #![trigger told[k]]
        0 <= k < told.len() && rename == refined(style, old, new, told, told[k]) {
        let k = choose|k: int|
            #![trigger told[k]]
            0 <= k < told.len() && rename == refined(style, old, new, told, told[k]);
        lemma_every_rename_is_kept(style, old, new, told, kept, k, k);
        let m = choose|m: int|
            #![trigger kept[m]]
            0 <= m < kept.len() && kept[m]@ == refined(style, old, new, told, told[k]);
        assert(shown[m] == rename);
    }
}

} // verus!
