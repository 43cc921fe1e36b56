//! What rename evidence proves between a commit and one of its parents, and
//! where it is too ambiguous to be used.

use vstd::prelude::*;
use vstd::string::*;

use super::data::{blob_views, Address, AddressView, EntryState, EntryView, Snapshot, SnapshotView};
use super::git::{Rename, RenameKind, RenameView};
use super::identity::{below, glob, is_glob, replacement, rest_below, substituted};
use crate::order::{
    compare_texts, first_decided, is_stable_sort, lemma_text_order_chains, lemma_text_order_flips,
    sort, text_order, Order, Ranked,
};
use crate::path_start::PathStyle;
use crate::paths::{file_name, file_name_of, parent, parent_of};
use crate::text::{holds_text, lemma_push_is_insert, same, same_texts, Text};
use crate::text_map::TextMap;

verus! {

// ---------------------------------------------------------------------------
// Directory substitutions
// ---------------------------------------------------------------------------

/// A path lies below a prefix.
pub open spec fn lies_below(path: Text, prefix: Text) -> bool {
    below(path, prefix) is Some
}

/// The rename touches one of the two sides of a move.
pub open spec fn touches(rename: RenameView, old: Text, new: Text) -> bool {
    rename.old == old || rename.new == new
}

/// The move from `old` to `new` is the one rename of its source and of its
/// destination: neither has a competing mapping.
pub open spec fn sole_move(renames: Seq<RenameView>, old: Text, new: Text) -> bool {
    exists|i: int|
        #![trigger renames[i]]
        0 <= i < renames.len() && renames[i].old == old && renames[i].new == new && (forall|j: int|
            #![trigger renames[j]]
            0 <= j < renames.len() && touches(renames[j], old, new) ==> j == i)
}

/// The paths of a tree below a prefix.
pub open spec fn descendants(blobs: Map<Text, Text>, prefix: Text) -> Set<Text> {
    blobs.dom().filter(|path: Text| lies_below(path, prefix))
}

/// The same address but for its path.
pub open spec fn same_but_path(a: AddressView, b: AddressView) -> bool {
    &&& a.registry == b.registry
    &&& a.severity == b.severity
    &&& a.match_kind == b.match_kind
    &&& a.unit == b.unit
    &&& a.rules == b.rules
}

/// Some entry stands at `address` moved to `path`.
pub open spec fn entry_stands(entries: Seq<EntryView>, address: AddressView, path: Text) -> bool {
    exists|i: int|
        #![trigger entries[i]]
        0 <= i < entries.len() && entries[i].address.path == path && same_but_path(
            address,
            entries[i].address,
        )
}

/// Every entry below `from` has its counterpart below `to`.
pub open spec fn entries_substituted(
    entries: Seq<EntryView>,
    others: Seq<EntryView>,
    from: Text,
    to: Text,
) -> bool {
    forall|i: int|
        #![trigger entries[i]]
        0 <= i < entries.len() && lies_below(entries[i].address.path, from) ==> entry_stands(
            others,
            entries[i].address,
            substituted(entries[i].address.path, from, to).unwrap(),
        )
}

/// Some entry lies below a prefix.
pub open spec fn entries_affected(entries: Seq<EntryView>, prefix: Text) -> bool {
    exists|i: int|
        #![trigger entries[i]]
        0 <= i < entries.len() && lies_below(entries[i].address.path, prefix)
}

/// Every path below `from` has its counterpart below `to`.
pub open spec fn paths_substituted(
    paths: Seq<Text>,
    others: Seq<Text>,
    from: Text,
    to: Text,
) -> bool {
    forall|i: int|
        #![trigger paths[i]]
        0 <= i < paths.len() && lies_below(paths[i], from) ==> others.contains(
            substituted(paths[i], from, to).unwrap(),
        )
}

/// Some path lies below a prefix.
pub open spec fn paths_affected(paths: Seq<Text>, prefix: Text) -> bool {
    exists|i: int| #![trigger paths[i]] 0 <= i < paths.len() && lies_below(paths[i], prefix)
}

/// Every descendant of `from` moved to its place below `to`.
pub open spec fn sources_moved(
    blobs: Map<Text, Text>,
    renames: Seq<RenameView>,
    from: Text,
    to: Text,
) -> bool {
    forall|path: Text| #[trigger]
        blobs.dom().contains(path) && lies_below(path, from) ==> sole_move(
            renames,
            path,
            substituted(path, from, to).unwrap(),
        )
}

/// Every descendant of `to` came from its place below `from`.
pub open spec fn destinations_moved(
    blobs: Map<Text, Text>,
    renames: Seq<RenameView>,
    from: Text,
    to: Text,
) -> bool {
    forall|path: Text| #[trigger]
        blobs.dom().contains(path) && lies_below(path, to) ==> sole_move(
            renames,
            substituted(path, to, from).unwrap(),
            path,
        )
}

/// The directory `from` became the directory `to`: every tracked descendant
/// moved there and nowhere else, nothing else arrived there, and the registry
/// and configuration edits make the same substitution.
pub open spec fn directory_proven(
    old: SnapshotView,
    new: SnapshotView,
    renames: Seq<RenameView>,
    from: Text,
    to: Text,
) -> bool {
    &&& descendants(old.blobs, from).len() > 0
    &&& descendants(old.blobs, from).len() == descendants(new.blobs, to).len()
    &&& sources_moved(old.blobs, renames, from, to)
    &&& destinations_moved(new.blobs, renames, from, to)
    &&& entries_affected(old.entries, from)
    &&& entries_substituted(old.entries, new.entries, from, to)
    &&& entries_substituted(new.entries, old.entries, to, from)
    &&& paths_affected(old.config_paths, from)
    &&& paths_substituted(old.config_paths, new.config_paths, from, to)
    &&& paths_substituted(new.config_paths, old.config_paths, to, from)
}

fn moved_alone(renames: &Vec<Rename>, old: &str, new: &str) -> (r: bool)
    ensures
        r == sole_move(renames.deep_view(), old@, new@),
{
    let ghost all = renames.deep_view();
    let mut at: Option<usize> = None;
    let mut i: usize = 0;
    while i < renames.len()
        invariant
            i <= renames@.len(),
            all == renames.deep_view(),
            match at {
                Some(k) => k < i && touches(all[k as int], old@, new@) && forall|j: int|
                    #![trigger all[j]]
                    0 <= j < i && touches(all[j], old@, new@) ==> j == k,
                None => forall|j: int|
                    #![trigger all[j]]
                    0 <= j < i ==> !touches(all[j], old@, new@),
            },
        decreases renames@.len() - i,
    {
        assert(all[i as int] == renames@[i as int]@);
        if same(renames[i].old.as_str(), old) || same(renames[i].new.as_str(), new) {
            if at.is_some() {
                return false;
            }
            at = Some(i);
        }
        i += 1;
    }
    match at {
        Some(k) => {
            assert(all[k as int] == renames@[k as int]@);
            same(renames[k].old.as_str(), old) && same(renames[k].new.as_str(), new)
        },
        None => false,
    }
}

fn count_below(blobs: &TextMap<String>, prefix: &str) -> (r: usize)
    ensures
        r == blobs@.dom().filter(|path: Text| lies_below(path, prefix@)).len(),
{
    let n: usize = blobs.len();
    let ghost keys = blobs.keys();
    let ghost mut kept: Seq<Text> = Seq::empty();
    let ghost mut seen: Seq<Text> = Seq::empty();
    let mut count: usize = 0;
    let mut i: usize = 0;
    while i < n
        invariant
            i <= n,
            n == keys.len(),
            keys == blobs.keys(),
            keys.no_duplicates(),
            count <= i,
            count == kept.len(),
            kept.no_duplicates(),
            seen == keys.take(i as int),
            forall|path: Text| #[trigger]
                kept.contains(path) <==> lies_below(path, prefix@) && seen.contains(path),
        decreases n - i,
    {
        let key = blobs.key_at(i);
        let ghost before = kept;
        let ghost head = seen;
        assert(keys.take(i + 1) =~= head.push(key@));
        assert(!head.contains(key@)) by {
            if head.contains(key@) {
                let j = choose|j: int| 0 <= j < head.len() && head[j] == key@;
                assert(keys[j] == keys[i as int]);
            }
        }
        if rest_below(key.as_str(), prefix).is_some() {
            proof {
                kept = kept.push(key@);
                assert(!before.contains(key@));
            }
            count += 1;
        }
        proof {
            seen = head.push(key@);
            assert forall|path: Text| #[trigger]
                kept.contains(path) <==> lies_below(path, prefix@) && seen.contains(path) by {
                lemma_push_is_insert(head, key@);
                lemma_push_is_insert(before, key@);
            }
        }
        i += 1;
    }
    proof {
        assert(keys.take(n as int) =~= keys);
        let wanted = blobs@.dom().filter(|path: Text| lies_below(path, prefix@));
        assert forall|path: Text| kept.to_set().contains(path) <==> wanted.contains(path) by {
            assert(kept.contains(path) <==> lies_below(path, prefix@) && seen.contains(path));
            assert(keys.to_set().contains(path) <==> blobs@.dom().contains(path));
        }
        assert(kept.to_set() =~= wanted);
        kept.unique_seq_to_set();
    }
    count
}

fn all_sources_moved(
    blobs: &TextMap<String>,
    renames: &Vec<Rename>,
    from: &str,
    to: &str,
) -> (r: bool)
    ensures
        r == sources_moved(blob_views(blobs@), renames.deep_view(), from@, to@),
{
    let n: usize = blobs.len();
    let ghost keys = blobs.keys();
    let ghost tree = blob_views(blobs@);
    let mut i: usize = 0;
    while i < n
        invariant
            i <= n,
            n == keys.len(),
            keys == blobs.keys(),
            tree == blob_views(blobs@),
            forall|j: int|
                #![trigger keys[j]]
                0 <= j < i && lies_below(keys[j], from@) ==> sole_move(
                    renames.deep_view(),
                    keys[j],
                    substituted(keys[j], from@, to@).unwrap(),
                ),
        decreases n - i,
    {
        let key = blobs.key_at(i);
        match replacement(key.as_str(), from, to) {
            Some(expected) => {
                if !moved_alone(renames, key.as_str(), expected.as_str()) {
                    assert(tree.dom().contains(key@) && lies_below(key@, from@));
                    return false;
                }
            },
            None => {},
        }
        i += 1;
    }
    assert forall|path: Text| #[trigger]
        tree.dom().contains(path) && lies_below(path, from@) implies sole_move(
        renames.deep_view(),
        path,
        substituted(path, from@, to@).unwrap(),
    ) by {
        assert(keys.to_set().contains(path));
        let j = choose|j: int| 0 <= j < keys.len() && keys[j] == path;
        assert(lies_below(keys[j], from@));
    }
    true
}

fn all_destinations_moved(
    blobs: &TextMap<String>,
    renames: &Vec<Rename>,
    from: &str,
    to: &str,
) -> (r: bool)
    ensures
        r == destinations_moved(blob_views(blobs@), renames.deep_view(), from@, to@),
{
    let n: usize = blobs.len();
    let ghost keys = blobs.keys();
    let ghost tree = blob_views(blobs@);
    let mut i: usize = 0;
    while i < n
        invariant
            i <= n,
            n == keys.len(),
            keys == blobs.keys(),
            tree == blob_views(blobs@),
            forall|j: int|
                #![trigger keys[j]]
                0 <= j < i && lies_below(keys[j], to@) ==> sole_move(
                    renames.deep_view(),
                    substituted(keys[j], to@, from@).unwrap(),
                    keys[j],
                ),
        decreases n - i,
    {
        let key = blobs.key_at(i);
        match replacement(key.as_str(), to, from) {
            Some(expected) => {
                if !moved_alone(renames, expected.as_str(), key.as_str()) {
                    assert(tree.dom().contains(key@) && lies_below(key@, to@));
                    return false;
                }
            },
            None => {},
        }
        i += 1;
    }
    assert forall|path: Text| #[trigger]
        tree.dom().contains(path) && lies_below(path, to@) implies sole_move(
        renames.deep_view(),
        substituted(path, to@, from@).unwrap(),
        path,
    ) by {
        assert(keys.to_set().contains(path));
        let j = choose|j: int| 0 <= j < keys.len() && keys[j] == path;
        assert(lies_below(keys[j], to@));
    }
    true
}

/// Whether two addresses differ in nothing but their path.
pub fn same_address_except_path(old: &Address, new: &Address) -> (r: bool)
    ensures
        r == same_but_path(old@, new@),
{
    old.registry == new.registry && old.severity == new.severity && old.match_kind
        == new.match_kind && old.unit == new.unit && same_texts(&old.rules, &new.rules)
}

fn stands(entries: &Vec<EntryState>, address: &Address, path: &str) -> (r: bool)
    ensures
        r == entry_stands(entries.deep_view(), address@, path@),
{
    let ghost all = entries.deep_view();
    let mut i: usize = 0;
    while i < entries.len()
        invariant
            i <= entries@.len(),
            all == entries.deep_view(),
            forall|j: int|
                #![trigger all[j]]
                0 <= j < i ==> !(all[j].address.path == path@ && same_but_path(
                    address@,
                    all[j].address,
                )),
        decreases entries@.len() - i,
    {
        assert(all[i as int] == entries@[i as int]@);
        if same(entries[i].address.path.as_str(), path) && same_address_except_path(
            address,
            &entries[i].address,
        ) {
            return true;
        }
        i += 1;
    }
    false
}

fn any_entry_below(entries: &Vec<EntryState>, prefix: &str) -> (r: bool)
    ensures
        r == entries_affected(entries.deep_view(), prefix@),
{
    let ghost all = entries.deep_view();
    let mut i: usize = 0;
    while i < entries.len()
        invariant
            i <= entries@.len(),
            all == entries.deep_view(),
            forall|j: int|
                #![trigger all[j]]
                0 <= j < i ==> !lies_below(all[j].address.path, prefix@),
        decreases entries@.len() - i,
    {
        assert(all[i as int] == entries@[i as int]@);
        if rest_below(entries[i].address.path.as_str(), prefix).is_some() {
            return true;
        }
        i += 1;
    }
    false
}

fn entries_follow(
    entries: &Vec<EntryState>,
    others: &Vec<EntryState>,
    from: &str,
    to: &str,
) -> (r: bool)
    ensures
        r == entries_substituted(entries.deep_view(), others.deep_view(), from@, to@),
{
    let ghost all = entries.deep_view();
    let mut i: usize = 0;
    while i < entries.len()
        invariant
            i <= entries@.len(),
            all == entries.deep_view(),
            forall|j: int|
                #![trigger all[j]]
                0 <= j < i && lies_below(all[j].address.path, from@) ==> entry_stands(
                    others.deep_view(),
                    all[j].address,
                    substituted(all[j].address.path, from@, to@).unwrap(),
                ),
        decreases entries@.len() - i,
    {
        assert(all[i as int] == entries@[i as int]@);
        match replacement(entries[i].address.path.as_str(), from, to) {
            Some(path) => {
                if !stands(others, &entries[i].address, path.as_str()) {
                    return false;
                }
            },
            None => {},
        }
        i += 1;
    }
    true
}

fn any_path_below(paths: &Vec<String>, prefix: &str) -> (r: bool)
    ensures
        r == paths_affected(paths.deep_view(), prefix@),
{
    let ghost all = paths.deep_view();
    let mut i: usize = 0;
    while i < paths.len()
        invariant
            i <= paths@.len(),
            all == paths.deep_view(),
            forall|j: int| #![trigger all[j]] 0 <= j < i ==> !lies_below(all[j], prefix@),
        decreases paths@.len() - i,
    {
        assert(all[i as int] == paths@[i as int]@);
        if rest_below(paths[i].as_str(), prefix).is_some() {
            return true;
        }
        i += 1;
    }
    false
}

fn paths_follow(paths: &Vec<String>, others: &Vec<String>, from: &str, to: &str) -> (r: bool)
    ensures
        r == paths_substituted(paths.deep_view(), others.deep_view(), from@, to@),
{
    let ghost all = paths.deep_view();
    let mut i: usize = 0;
    while i < paths.len()
        invariant
            i <= paths@.len(),
            all == paths.deep_view(),
            forall|j: int|
                #![trigger all[j]]
                0 <= j < i && lies_below(all[j], from@) ==> others.deep_view().contains(
                    substituted(all[j], from@, to@).unwrap(),
                ),
        decreases paths@.len() - i,
    {
        assert(all[i as int] == paths@[i as int]@);
        match replacement(paths[i].as_str(), from, to) {
            Some(path) => {
                if !holds_text(others, &path) {
                    return false;
                }
            },
            None => {},
        }
        i += 1;
    }
    true
}

/// Whether a directory became another one.
pub fn directory_mapping_is_proven(
    old: &Snapshot,
    new: &Snapshot,
    renames: &Vec<Rename>,
    old_prefix: &str,
    new_prefix: &str,
) -> (r: bool)
    ensures
        r == directory_proven(old@, new@, renames.deep_view(), old_prefix@, new_prefix@),
{
    let sources: usize = count_below(&old.blobs, old_prefix);
    let destinations: usize = count_below(&new.blobs, new_prefix);
    assert(descendants(old@.blobs, old_prefix@) =~= old.blobs@.dom().filter(
        |path: Text| lies_below(path, old_prefix@),
    ));
    assert(descendants(new@.blobs, new_prefix@) =~= new.blobs@.dom().filter(
        |path: Text| lies_below(path, new_prefix@),
    ));
    sources > 0 && sources == destinations && all_sources_moved(
        &old.blobs,
        renames,
        old_prefix,
        new_prefix,
    ) && all_destinations_moved(&new.blobs, renames, old_prefix, new_prefix) && any_entry_below(
        &old.entries,
        old_prefix,
    ) && entries_follow(&old.entries, &new.entries, old_prefix, new_prefix) && entries_follow(
        &new.entries,
        &old.entries,
        new_prefix,
        old_prefix,
    ) && any_path_below(&old.config_paths, old_prefix) && paths_follow(
        &old.config_paths,
        &new.config_paths,
        old_prefix,
        new_prefix,
    ) && paths_follow(&new.config_paths, &old.config_paths, new_prefix, old_prefix)
}

// ---------------------------------------------------------------------------
// Refined renames
// ---------------------------------------------------------------------------

impl Ranked for Rename {
    open spec fn rank(&self, other: &Self) -> Order {
        text_order(self.old@, other.old@).or_else(text_order(self.new@, other.new@))
    }

    proof fn rank_flips(a: &Self, b: &Self) {
        lemma_text_order_flips(a.old@, b.old@);
        lemma_text_order_flips(a.new@, b.new@);
    }

    proof fn rank_chains(a: &Self, b: &Self, c: &Self) {
        if text_order(a.old@, b.old@) != Order::After && text_order(b.old@, c.old@)
            != Order::After {
            lemma_text_order_chains(a.old@, b.old@, c.old@);
        }
        if text_order(a.new@, b.new@) != Order::After && text_order(b.new@, c.new@)
            != Order::After {
            lemma_text_order_chains(a.new@, b.new@, c.new@);
        }
    }

    fn compare(&self, other: &Self) -> (r: Order) {
        first_decided(
            compare_texts(self.old.as_str(), other.old.as_str()),
            compare_texts(self.new.as_str(), other.new.as_str()),
        )
    }
}

/// The directories that a rename suggests: the file keeps its name and changes
/// its directory.
pub open spec fn suggested(style: PathStyle, rename: RenameView) -> Option<(Text, Text)> {
    match (parent(style, rename.old), parent(style, rename.new)) {
        (Some(from), Some(to)) => if from != to && file_name(style, rename.old) == file_name(
            style,
            rename.new,
        ) {
            Some((from, to))
        } else {
            None
        },
        _ => None,
    }
}

/// The rename follows from the directory substitution that `suggestion`
/// suggests, and that substitution is proven.
pub open spec fn accounts_for(
    style: PathStyle,
    old: SnapshotView,
    new: SnapshotView,
    renames: Seq<RenameView>,
    suggestion: RenameView,
    rename: RenameView,
) -> bool {
    match suggested(style, suggestion) {
        Some((from, to)) => directory_proven(old, new, renames, from, to) && substituted(
            rename.old,
            from,
            to,
        ) == Some(rename.new),
        None => false,
    }
}

/// A proven directory substitution accounts for the rename.
pub open spec fn moved_with_directory(
    style: PathStyle,
    old: SnapshotView,
    new: SnapshotView,
    renames: Seq<RenameView>,
    rename: RenameView,
) -> bool {
    exists|k: int|
        #![trigger renames[k]]
        0 <= k < renames.len() && accounts_for(style, old, new, renames, renames[k], rename)
}

/// The rename with its kind raised where a directory accounts for it.
pub open spec fn refined(
    style: PathStyle,
    old: SnapshotView,
    new: SnapshotView,
    renames: Seq<RenameView>,
    rename: RenameView,
) -> RenameView {
    RenameView {
        old: rename.old,
        new: rename.new,
        kind: if moved_with_directory(style, old, new, renames, rename) {
            RenameKind::Directory
        } else {
            rename.kind
        },
    }
}

/// Every rename, refined.
pub open spec fn all_refined(
    style: PathStyle,
    old: SnapshotView,
    new: SnapshotView,
    renames: Seq<RenameView>,
) -> Seq<RenameView> {
    renames.map_values(|rename: RenameView| refined(style, old, new, renames, rename))
}

/// `result` holds every rename refined, sorted by its old and new path.
pub open spec fn is_refinement(
    style: PathStyle,
    old: SnapshotView,
    new: SnapshotView,
    renames: Seq<RenameView>,
    result: Seq<Rename>,
) -> bool {
    exists|marked: Seq<Rename>| #[trigger]
        is_stable_sort(marked, result) && marked.map_values(|rename: Rename| rename@)
            == all_refined(style, old, new, renames)
}

fn suggestion(style: PathStyle, rename: &Rename) -> (r: Option<(String, String)>)
    ensures
        r.deep_view() == suggested(style, rename@),
{
    let from = parent_of(style, rename.old.as_str());
    let to = parent_of(style, rename.new.as_str());
    match (from, to) {
        (Some(from), Some(to)) => {
            let old_name = file_name_of(style, rename.old.as_str());
            let new_name = file_name_of(style, rename.new.as_str());
            let same_name: bool = match (&old_name, &new_name) {
                (Some(a), Some(b)) => *a == *b,
                (None, None) => true,
                _ => false,
            };
            if same_name && !same(from.as_str(), to.as_str()) {
                Some((from, to))
            } else {
                None
            }
        },
        _ => None,
    }
}

fn holds_pair(pairs: &Vec<(String, String)>, first: &str, second: &str) -> (r: bool)
    ensures
        r == pairs.deep_view().contains((first@, second@)),
{
    let ghost all = pairs.deep_view();
    let mut i: usize = 0;
    while i < pairs.len()
        invariant
            i <= pairs@.len(),
            all == pairs.deep_view(),
            forall|j: int| #![trigger all[j]] 0 <= j < i ==> all[j] != (first@, second@),
        decreases pairs@.len() - i,
    {
        assert(all[i as int] == (pairs@[i as int].0@, pairs@[i as int].1@));
        if same(pairs[i].0.as_str(), first) && same(pairs[i].1.as_str(), second) {
            assert(all.contains((first@, second@)));
            return true;
        }
        i += 1;
    }
    false
}

/// Some rename suggests the pair.
pub open spec fn is_suggested(
    style: PathStyle,
    renames: Seq<RenameView>,
    pair: (Text, Text),
) -> bool {
    exists|k: int|
        #![trigger renames[k]]
        0 <= k < renames.len() && suggested(style, renames[k]) == Some(pair)
}

fn suggestions(style: PathStyle, renames: &Vec<Rename>) -> (r: Vec<(String, String)>)
    ensures
        forall|pair: (Text, Text)| #[trigger]
            r.deep_view().contains(pair) <==> is_suggested(style, renames.deep_view(), pair),
{
    let ghost all = renames.deep_view();
    let mut r: Vec<(String, String)> = Vec::new();
    let mut i: usize = 0;
    while i < renames.len()
        invariant
            i <= renames@.len(),
            all == renames.deep_view(),
            forall|pair: (Text, Text)| #[trigger]
                r.deep_view().contains(pair) <==> (exists|k: int|
                    #![trigger all[k]]
                    0 <= k < i && suggested(style, all[k]) == Some(pair)),
        decreases renames@.len() - i,
    {
        assert(all[i as int] == renames@[i as int]@);
        let ghost here = r.deep_view();
        match suggestion(style, &renames[i]) {
            Some((from, to)) => {
                if !holds_pair(&r, from.as_str(), to.as_str()) {
                    let ghost pair = (from@, to@);
                    r.push((from, to));
                    assert(r.deep_view() =~= here.push(pair));
                    assert forall|other: (Text, Text)| #[trigger]
                        r.deep_view().contains(other) <==> here.contains(other) || other == pair by {
                        if here.contains(other) {
                            let j = choose|j: int| 0 <= j < here.len() && here[j] == other;
                            assert(r.deep_view()[j] == other);
                        }
                        assert(r.deep_view()[here.len() as int] == pair);
                    }
                }
                assert(suggested(style, all[i as int]) == Some((from@, to@)));
            },
            None => {},
        }
        i += 1;
    }
    r
}

/// The pairs hold a proven substitution that accounts for the rename.
spec fn pair_accounts(pairs: Seq<(Text, Text)>, rename: RenameView) -> bool {
    exists|k: int|
        #![trigger pairs[k]]
        0 <= k < pairs.len() && substituted(rename.old, pairs[k].0, pairs[k].1) == Some(rename.new)
}

fn any_pair_accounts(pairs: &Vec<(String, String)>, rename: &Rename) -> (r: bool)
    ensures
        r == pair_accounts(pairs.deep_view(), rename@),
{
    let ghost all = pairs.deep_view();
    let mut i: usize = 0;
    while i < pairs.len()
        invariant
            i <= pairs@.len(),
            all == pairs.deep_view(),
            forall|j: int|
                #![trigger all[j]]
                0 <= j < i ==> substituted(rename@.old, all[j].0, all[j].1) != Some(rename@.new),
        decreases pairs@.len() - i,
    {
        assert(all[i as int] == (pairs@[i as int].0@, pairs@[i as int].1@));
        match replacement(rename.old.as_str(), pairs[i].0.as_str(), pairs[i].1.as_str()) {
            Some(moved) => {
                if same(moved.as_str(), rename.new.as_str()) {
                    return true;
                }
            },
            None => {},
        }
        i += 1;
    }
    false
}

/// The suggested substitutions that are proven.
fn proven_pairs(
    style: PathStyle,
    old: &Snapshot,
    new: &Snapshot,
    renames: &Vec<Rename>,
) -> (r: Vec<(String, String)>)
    ensures
        forall|pair: (Text, Text)| #[trigger]
            r.deep_view().contains(pair) <==> is_suggested(style, renames.deep_view(), pair)
                && directory_proven(old@, new@, renames.deep_view(), pair.0, pair.1),
{
    let pairs = suggestions(style, renames);
    let ghost all = pairs.deep_view();
    let ghost raw = renames.deep_view();
    let mut r: Vec<(String, String)> = Vec::new();
    let mut i: usize = 0;
    while i < pairs.len()
        invariant
            i <= pairs@.len(),
            all == pairs.deep_view(),
            raw == renames.deep_view(),
            forall|pair: (Text, Text)| #[trigger]
                r.deep_view().contains(pair) <==> (exists|k: int|
                    #![trigger all[k]]
                    0 <= k < i && all[k] == pair) && directory_proven(old@, new@, raw, pair.0, pair.1),
        decreases pairs@.len() - i,
    {
        assert(all[i as int] == (pairs@[i as int].0@, pairs@[i as int].1@));
        let ghost here = r.deep_view();
        if directory_mapping_is_proven(old, new, renames, pairs[i].0.as_str(), pairs[i].1.as_str()) {
            let ghost pair = all[i as int];
            r.push((pairs[i].0.clone(), pairs[i].1.clone()));
            assert(r.deep_view() =~= here.push(pair));
            assert forall|other: (Text, Text)| #[trigger]
                r.deep_view().contains(other) <==> here.contains(other) || other == pair by {
                if here.contains(other) {
                    let j = choose|j: int| 0 <= j < here.len() && here[j] == other;
                    assert(r.deep_view()[j] == other);
                }
                assert(r.deep_view()[here.len() as int] == pair);
            }
        }
        i += 1;
    }
    assert forall|pair: (Text, Text)| #[trigger]
        r.deep_view().contains(pair) <==> is_suggested(style, raw, pair) && directory_proven(
            old@,
            new@,
            raw,
            pair.0,
            pair.1,
        ) by {
        assert(all.contains(pair) <==> is_suggested(style, raw, pair));
    }
    r
}

/// The renames, each with the kind that the evidence proves, in order.
pub fn refine_exception_renames(
    style: PathStyle,
    old: &Snapshot,
    new: &Snapshot,
    raw: Vec<Rename>,
) -> (r: Vec<Rename>)
    ensures
        is_refinement(style, old@, new@, raw.deep_view(), r@),
        r@.len() == raw@.len(),
{
    let pairs = proven_pairs(style, old, new, &raw);
    let ghost all = raw.deep_view();
    let ghost wanted = all_refined(style, old@, new@, all);
    let mut r: Vec<Rename> = Vec::new();
    let mut i: usize = 0;
    while i < raw.len()
        invariant
            i <= raw@.len(),
            r@.len() == i,
            all == raw.deep_view(),
            wanted == all_refined(style, old@, new@, all),
            forall|pair: (Text, Text)| #[trigger]
                pairs.deep_view().contains(pair) <==> is_suggested(style, all, pair)
                    && directory_proven(old@, new@, all, pair.0, pair.1),
            forall|j: int| #![trigger r@[j]] 0 <= j < i ==> r@[j]@ == wanted[j],
        decreases raw@.len() - i,
    {
        let ghost rename = all[i as int];
        assert(rename == raw@[i as int]@);
        let moved = any_pair_accounts(&pairs, &raw[i]);
        proof {
            let list = pairs.deep_view();
            if moved {
                let k = choose|k: int|
                    #![trigger list[k]]
                    0 <= k < list.len() && substituted(rename.old, list[k].0, list[k].1) == Some(
                        rename.new,
                    );
                assert(list.contains(list[k]));
                let m = choose|m: int|
                    #![trigger all[m]]
                    0 <= m < all.len() && suggested(style, all[m]) == Some(list[k]);
                assert(accounts_for(style, old@, new@, all, all[m], rename));
            }
            if moved_with_directory(style, old@, new@, all, rename) {
                let m = choose|m: int|
                    #![trigger all[m]]
                    0 <= m < all.len() && accounts_for(style, old@, new@, all, all[m], rename);
                let pair = suggested(style, all[m]).unwrap();
                assert(is_suggested(style, all, pair));
                assert(list.contains(pair));
                let k = choose|k: int| 0 <= k < list.len() && list[k] == pair;
                assert(substituted(rename.old, list[k].0, list[k].1) == Some(rename.new));
            }
        }
        let mut kept = raw[i].clone();
        if moved {
            kept.kind = RenameKind::Directory;
        }
        assert(kept@ == wanted[i as int]);
        r.push(kept);
        i += 1;
    }
    let ghost marked = r@;
    assert(marked.map_values(|rename: Rename| rename@) =~= wanted);
    sort(&mut r);
    assert(is_stable_sort(marked, r@));
    r
}

// ---------------------------------------------------------------------------
// Evidence for exception entries
// ---------------------------------------------------------------------------

/// The address after the rename of one file. A glob does not move with a file.
pub open spec fn address_after(a: AddressView, rename: RenameView) -> AddressView {
    AddressView {
        severity: a.severity,
        registry: if a.registry == rename.old {
            rename.new
        } else {
            a.registry
        },
        path: if a.path == rename.old && !is_glob(a) {
            rename.new
        } else {
            a.path
        },
        match_kind: a.match_kind,
        unit: a.unit,
        rules: a.rules,
    }
}

/// Some entry has exactly this address.
pub open spec fn has_address(entries: Seq<EntryView>, address: AddressView) -> bool {
    exists|i: int| #![trigger entries[i]] 0 <= i < entries.len() && entries[i].address == address
}

/// The registry made the same move: some entry stands at its moved address.
pub open spec fn carries_entry(
    old: SnapshotView,
    new: SnapshotView,
    rename: RenameView,
) -> bool {
    rename.kind == RenameKind::Directory || exists|i: int|
        #![trigger old.entries[i]]
        0 <= i < old.entries.len() && address_after(old.entries[i].address, rename)
            != old.entries[i].address && has_address(
            new.entries,
            address_after(old.entries[i].address, rename),
        )
}

/// The renames that carry exception entries, in order.
pub open spec fn carriers(
    old: SnapshotView,
    new: SnapshotView,
    renames: Seq<RenameView>,
) -> Seq<RenameView>
    decreases renames.len(),
{
    if renames.len() == 0 {
        Seq::empty()
    } else if carries_entry(old, new, renames.last()) {
        carriers(old, new, renames.drop_last()).push(renames.last())
    } else {
        carriers(old, new, renames.drop_last())
    }
}

/// The place of the entry with exactly this address.
pub fn entry_at(entries: &Vec<EntryState>, address: &Address) -> (r: Option<usize>)
    ensures
        match r {
            Some(i) => i < entries@.len() && entries@[i as int].address@ == address@ && forall|j: int|
                #![trigger entries@[j]]
                0 <= j < i ==> entries@[j].address@ != address@,
            None => !has_address(entries.deep_view(), address@),
        },
{
    let ghost all = entries.deep_view();
    let mut i: usize = 0;
    while i < entries.len()
        invariant
            i <= entries@.len(),
            all == entries.deep_view(),
            forall|j: int| #![trigger all[j]] 0 <= j < i ==> all[j].address != address@,
            forall|j: int| #![trigger entries@[j]] 0 <= j < i ==> entries@[j].address@ != address@,
        decreases entries@.len() - i,
    {
        assert(all[i as int] == entries@[i as int]@);
        if entries[i].address.equals(address) {
            return Some(i);
        }
        i += 1;
    }
    None
}

fn moved_address(address: &Address, rename: &Rename) -> (r: Address)
    ensures
        r@ == address_after(address@, rename@),
{
    let mut moved = address.clone();
    if same(address.path.as_str(), rename.old.as_str()) && !glob(address) {
        moved.path = rename.new.clone();
    }
    if same(address.registry.as_str(), rename.old.as_str()) {
        moved.registry = rename.new.clone();
    }
    moved
}

/// Whether a rename carries exception entries.
pub fn rename_carries_entry_identity(old: &Snapshot, new: &Snapshot, rename: &Rename) -> (r: bool)
    ensures
        r == carries_entry(old@, new@, rename@),
{
    if rename.kind == RenameKind::Directory {
        return true;
    }
    let ghost all = old@.entries;
    let mut i: usize = 0;
    while i < old.entries.len()
        invariant
            i <= old.entries@.len(),
            all == old@.entries,
            forall|j: int|
                #![trigger all[j]]
                0 <= j < i ==> !(address_after(all[j].address, rename@) != all[j].address
                    && has_address(new@.entries, address_after(all[j].address, rename@))),
        decreases old.entries@.len() - i,
    {
        assert(all[i as int] == old.entries@[i as int]@);
        let moved = moved_address(&old.entries[i].address, rename);
        if !moved.equals(&old.entries[i].address) {
            match entry_at(&new.entries, &moved) {
                Some(at) => {
                    assert(new@.entries[at as int].address == moved@);
                    assert(has_address(new@.entries, moved@));
                    return true;
                },
                None => {},
            }
        }
        i += 1;
    }
    false
}

pub fn entry_carriers(old: &Snapshot, new: &Snapshot, renames: &Vec<Rename>) -> (r: Vec<Rename>)
    ensures
        r.deep_view() == carriers(old@, new@, renames.deep_view()),
{
    let ghost all = renames.deep_view();
    let mut r: Vec<Rename> = Vec::new();
    let mut i: usize = 0;
    assert(r.deep_view() =~= carriers(old@, new@, all.take(0)));
    while i < renames.len()
        invariant
            i <= renames@.len(),
            all == renames.deep_view(),
            r.deep_view() == carriers(old@, new@, all.take(i as int)),
        decreases renames@.len() - i,
    {
        assert(all.take(i + 1).drop_last() =~= all.take(i as int));
        assert(all.take(i + 1).last() == renames@[i as int]@);
        if rename_carries_entry_identity(old, new, &renames[i]) {
            let ghost here = r.deep_view();
            r.push(renames[i].clone());
            assert(r.deep_view() =~= here.push(renames@[i as int]@));
        }
        i += 1;
    }
    assert(all.take(i as int) =~= all);
    r
}

} // verus!
