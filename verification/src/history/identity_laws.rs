//! Where the evidence of one commit takes a path, an entry and a finding, said
//! of the renames one by one.

use vstd::prelude::*;

use super::data::{AddressView, FindingAddressView, MovementKind};
use super::git::{RenameKind, RenameView};
use super::identity::{
    directory_target, first_directory, first_exact, mapped_address, mapped_finding, mapped_path,
    TransitionView,
};
use crate::path_start::PathStyle;
use crate::paths::parent;
use crate::text::Text;

verus! {

// ---------------------------------------------------------------------------
// Paths
// ---------------------------------------------------------------------------

/// The rename is one of this very path. A glob goes only with a directory.
pub open spec fn names_path(rename: RenameView, path: Text, directories_only: bool) -> bool {
    rename.old == path && (directories_only ==> rename.kind == RenameKind::Directory)
}

/// The path is the directory followed by `rest`: nothing, or a slash and more.
pub open spec fn is_under(path: Text, directory: Text, rest: Text) -> bool {
    path == directory + rest && (rest.len() > 0 ==> rest[0] == '/')
}

/// The rename moves the directory that the path lies in, and the path with it.
pub open spec fn moves_along(style: PathStyle, rename: RenameView, path: Text, to: Text) -> bool {
    &&& rename.kind == RenameKind::Directory
    &&& parent(style, rename.old) matches Some(from)
    &&& parent(style, rename.new) matches Some(target)
    &&& exists|rest: Text| #[trigger] is_under(path, from, rest) && to == target + rest
}

/// What a rename is evidence of.
pub open spec fn evidence_of(rename: RenameView) -> MovementKind {
    if rename.kind == RenameKind::Directory {
        MovementKind::Directory
    } else {
        MovementKind::ExactFile
    }
}

/// The first rename of the path itself takes it there.
pub open spec fn moves_by_name(
    renames: Seq<RenameView>,
    path: Text,
    directories_only: bool,
    r: int,
    to: Text,
    kind: Option<MovementKind>,
) -> bool {
    &&& 0 <= r < renames.len()
    &&& names_path(renames[r], path, directories_only)
    &&& forall|s: int|
        #![trigger renames[s]]
        0 <= s < r ==> !names_path(renames[s], path, directories_only)
    &&& to == renames[r].new
    &&& kind == Some(evidence_of(renames[r]))
}

/// No rename is one of the path itself.
pub open spec fn none_names(renames: Seq<RenameView>, path: Text, directories_only: bool) -> bool {
    forall|s: int|
        #![trigger renames[s]]
        0 <= s < renames.len() ==> !names_path(renames[s], path, directories_only)
}

/// The first rename that moves the directory of the path takes it there.
pub open spec fn moves_with_directory(
    style: PathStyle,
    renames: Seq<RenameView>,
    path: Text,
    r: int,
    to: Text,
) -> bool {
    &&& 0 <= r < renames.len()
    &&& moves_along(style, renames[r], path, to)
    &&& forall|s: int, other: Text|
        0 <= s < r ==> !#[trigger] moves_along(style, renames[s], path, other)
}

/// The renames take the path to `to`: the first of the path itself, without one
/// the first that moves its directory, and without one it stays.
pub open spec fn moves(
    style: PathStyle,
    renames: Seq<RenameView>,
    path: Text,
    directories_only: bool,
    to: Text,
    kind: Option<MovementKind>,
) -> bool {
    ||| exists|r: int| #[trigger] moves_by_name(renames, path, directories_only, r, to, kind)
    ||| {
        &&& none_names(renames, path, directories_only)
        &&& kind == Some(MovementKind::Directory)
        &&& exists|r: int| #[trigger] moves_with_directory(style, renames, path, r, to)
    }
    ||| {
        &&& none_names(renames, path, directories_only)
        &&& kind is None
        &&& to == path
        &&& forall|s: int, other: Text|
            0 <= s < renames.len() ==> !#[trigger] moves_along(style, renames[s], path, other)
    }
}

proof fn lemma_first_exact_named(
    renames: Seq<RenameView>,
    path: Text,
    directories_only: bool,
)
    ensures
        match first_exact(renames, path, directories_only) {
            Some(rename) => exists|r: int| #[trigger]
                moves_by_name(
                    renames,
                    path,
                    directories_only,
                    r,
                    rename.new,
                    Some(evidence_of(rename)),
                ),
            None => none_names(renames, path, directories_only),
        },
    decreases renames.len(),
{
    if renames.len() > 0 {
        let rest = renames.drop_first();
        lemma_first_exact_named(rest, path, directories_only);
        if names_path(renames[0], path, directories_only) {
            assert(moves_by_name(
                renames,
                path,
                directories_only,
                0,
                renames[0].new,
                Some(evidence_of(renames[0])),
            ));
        } else {
            match first_exact(rest, path, directories_only) {
                Some(rename) => {
                    let r = choose|r: int| #[trigger]
                        moves_by_name(
                            rest,
                            path,
                            directories_only,
                            r,
                            rename.new,
                            Some(evidence_of(rename)),
                        );
                    assert forall|s: int| #![trigger renames[s]] 0 <= s < r + 1 implies !names_path(
                        renames[s],
                        path,
                        directories_only,
                    ) by {
                        if s > 0 {
                            assert(renames[s] == rest[s - 1]);
                        }
                    }
                    assert(renames[r + 1] == rest[r]);
                    assert(moves_by_name(
                        renames,
                        path,
                        directories_only,
                        r + 1,
                        rename.new,
                        Some(evidence_of(rename)),
                    ));
                },
                None => {
                    assert forall|s: int|
                        #![trigger renames[s]]
                        0 <= s < renames.len() implies !names_path(
                        renames[s],
                        path,
                        directories_only,
                    ) by {
                        if s > 0 {
                            assert(renames[s] == rest[s - 1]);
                        }
                    }
                },
            }
        }
    }
}

proof fn lemma_target_moves(style: PathStyle, rename: RenameView, path: Text, to: Text)
    ensures
        directory_target(style, rename, path) == Some(to) <==> moves_along(
            style,
            rename,
            path,
            to,
        ),
{
    if rename.kind == RenameKind::Directory && parent(style, rename.old) is Some && parent(
        style,
        rename.new,
    ) is Some {
        let from = parent(style, rename.old).unwrap();
        let target = parent(style, rename.new).unwrap();
        if directory_target(style, rename, path) == Some(to) {
            let rest = path.skip(from.len() as int);
            assert(path =~= from + rest);
            assert(is_under(path, from, rest));
        }
        if moves_along(style, rename, path, to) {
            let rest = choose|rest: Text| #[trigger]
                is_under(path, from, rest) && to == target + rest;
            assert(path.skip(from.len() as int) =~= rest);
            assert(path.take(from.len() as int) =~= from);
        }
    }
}

proof fn lemma_first_directory_moves(style: PathStyle, renames: Seq<RenameView>, path: Text)
    ensures
        match first_directory(style, renames, path) {
            Some(to) => exists|r: int| #[trigger]
                moves_with_directory(style, renames, path, r, to),
            None => forall|s: int, other: Text|
                0 <= s < renames.len() ==> !#[trigger] moves_along(style, renames[s], path, other),
        },
    decreases renames.len(),
{
    if renames.len() > 0 {
        let rest = renames.drop_first();
        lemma_first_directory_moves(style, rest, path);
        assert forall|other: Text| #[trigger] moves_along(
            style,
            renames[0],
            path,
            other,
        ) implies directory_target(style, renames[0], path) == Some(other) by {
            lemma_target_moves(style, renames[0], path, other);
        }
        match directory_target(style, renames[0], path) {
            Some(to) => {
                lemma_target_moves(style, renames[0], path, to);
                assert(moves_with_directory(style, renames, path, 0, to));
            },
            None => {
                assert forall|s: int, other: Text| 0 < s < renames.len() implies #[trigger] moves_along(
                    style,
                    renames[s],
                    path,
                    other,
                ) == moves_along(style, rest[s - 1], path, other) by {
                    assert(renames[s] == rest[s - 1]);
                }
                if let Some(to) = first_directory(style, rest, path) {
                    let r = choose|r: int| #[trigger]
                        moves_with_directory(style, rest, path, r, to);
                    assert(renames[r + 1] == rest[r]);
                    assert forall|s: int, other: Text| 0 <= s < r + 1 implies !#[trigger] moves_along(
                        style,
                        renames[s],
                        path,
                        other,
                    ) by {
                        if s > 0 {
                            assert(!moves_along(style, rest[s - 1], path, other));
                        }
                    }
                    assert(moves_with_directory(style, renames, path, r + 1, to));
                } else {
                    assert forall|s: int, other: Text| 0 <= s < renames.len() implies !#[trigger] moves_along(
                        style,
                        renames[s],
                        path,
                        other,
                    ) by {
                        if s > 0 {
                            assert(!moves_along(style, rest[s - 1], path, other));
                        }
                    }
                }
            },
        }
    }
}

proof fn lemma_one_first(
    renames: Seq<RenameView>,
    path: Text,
    directories_only: bool,
    r: int,
    to: Text,
    kind: Option<MovementKind>,
    s: int,
    other: Text,
    other_kind: Option<MovementKind>,
)
    requires
        moves_by_name(renames, path, directories_only, r, to, kind),
        moves_by_name(renames, path, directories_only, s, other, other_kind),
    ensures
        to == other,
        kind == other_kind,
{
    assert(names_path(renames[r], path, directories_only));
    assert(names_path(renames[s], path, directories_only));
    assert(r == s);
}

/// A path goes one way under given renames: to the new path of the first rename
/// of it, else along with the first directory that holds it and moved, else
/// nowhere. The kind of the evidence is that of the rename which decides.
pub proof fn lemma_path_goes_one_way(
    style: PathStyle,
    renames: Seq<RenameView>,
    path: Text,
    directories_only: bool,
    to: Text,
    kind: Option<MovementKind>,
)
    ensures
        moves(style, renames, path, directories_only, to, kind) <==> mapped_path(
            style,
            renames,
            path,
            directories_only,
        ) == (to, kind),
{
    lemma_first_exact_named(renames, path, directories_only);
    lemma_first_directory_moves(style, renames, path);
    match first_exact(renames, path, directories_only) {
        Some(rename) => {
            let r = choose|r: int| #[trigger]
                moves_by_name(
                    renames,
                    path,
                    directories_only,
                    r,
                    rename.new,
                    Some(evidence_of(rename)),
                );
            assert(names_path(renames[r], path, directories_only));
            if exists|s: int| #[trigger]
                moves_by_name(renames, path, directories_only, s, to, kind) {
                let s = choose|s: int| #[trigger]
                    moves_by_name(renames, path, directories_only, s, to, kind);
                lemma_one_first(
                    renames,
                    path,
                    directories_only,
                    r,
                    rename.new,
                    Some(evidence_of(rename)),
                    s,
                    to,
                    kind,
                );
            }
        },
        None => {
            assert forall|s: int| !#[trigger] moves_by_name(
                renames,
                path,
                directories_only,
                s,
                to,
                kind,
            ) by {
                if 0 <= s < renames.len() {
                    assert(!names_path(renames[s], path, directories_only));
                }
            }
            if let Some(target) = first_directory(style, renames, path) {
                let r = choose|r: int| #[trigger]
                    moves_with_directory(style, renames, path, r, target);
                assert(moves_along(style, renames[r], path, target));
                lemma_target_moves(style, renames[r], path, target);
                if exists|s: int| #[trigger] moves_with_directory(style, renames, path, s, to) {
                    let s = choose|s: int| #[trigger]
                        moves_with_directory(style, renames, path, s, to);
                    assert(moves_along(style, renames[s], path, to));
                    assert(r == s);
                    lemma_target_moves(style, renames[s], path, to);
                }
            } else {
                assert forall|s: int| !#[trigger] moves_with_directory(
                    style,
                    renames,
                    path,
                    s,
                    to,
                ) by {
                    if 0 <= s < renames.len() {
                        assert(!moves_along(style, renames[s], path, to));
                    }
                }
            }
        },
    }
}

// ---------------------------------------------------------------------------
// Entries and findings
// ---------------------------------------------------------------------------

/// The entry covers what a glob matches.
pub open spec fn is_pattern(a: AddressView) -> bool {
    a.match_kind == seq!['g', 'l', 'o', 'b']
}

/// The evidence takes the entry at `a` to `b`: its registry and its path go
/// where the renames of entries take them, and nothing else changes. The move
/// of the path tells the kind before that of the registry.
pub open spec fn entry_moves(
    t: TransitionView,
    a: AddressView,
    b: AddressView,
    kind: Option<MovementKind>,
) -> bool {
    &&& b.severity == a.severity
    &&& b.match_kind == a.match_kind
    &&& b.unit == a.unit
    &&& b.rules == a.rules
    &&& exists|path_kind: Option<MovementKind>, registry_kind: Option<MovementKind>|
        {
            &&& #[trigger] moves(
                t.style,
                t.entry_renames,
                a.path,
                is_pattern(a),
                b.path,
                path_kind,
            )
            &&& #[trigger] moves(
                t.style,
                t.entry_renames,
                a.registry,
                false,
                b.registry,
                registry_kind,
            )
            &&& path_kind is Some ==> kind == path_kind
            &&& path_kind is None ==> kind == registry_kind
        }
}

/// An entry goes where its registry and its path go, with the evidence of the
/// path before that of the registry.
pub proof fn lemma_entry_goes_with_its_paths(
    t: TransitionView,
    a: AddressView,
    b: AddressView,
    kind: Option<MovementKind>,
)
    ensures
        entry_moves(t, a, b, kind) <==> mapped_address(t, a) == (b, kind),
{
    let glob = is_pattern(a);
    reveal_strlit("glob");
    assert("glob"@ =~= seq!['g', 'l', 'o', 'b']);
    if entry_moves(t, a, b, kind) {
        let (path_kind, registry_kind) = choose|
            path_kind: Option<MovementKind>,
            registry_kind: Option<MovementKind>,
        |
            {
                &&& #[trigger] moves(
                    t.style,
                    t.entry_renames,
                    a.path,
                    is_pattern(a),
                    b.path,
                    path_kind,
                )
                &&& #[trigger] moves(
                    t.style,
                    t.entry_renames,
                    a.registry,
                    false,
                    b.registry,
                    registry_kind,
                )
                &&& path_kind is Some ==> kind == path_kind
                &&& path_kind is None ==> kind == registry_kind
            };
        lemma_path_goes_one_way(t.style, t.entry_renames, a.path, glob, b.path, path_kind);
        lemma_path_goes_one_way(
            t.style,
            t.entry_renames,
            a.registry,
            false,
            b.registry,
            registry_kind,
        );
    }
    if mapped_address(t, a) == (b, kind) {
        let path_kind = mapped_path(t.style, t.entry_renames, a.path, glob).1;
        let registry_kind = mapped_path(t.style, t.entry_renames, a.registry, false).1;
        lemma_path_goes_one_way(t.style, t.entry_renames, a.path, glob, b.path, path_kind);
        lemma_path_goes_one_way(
            t.style,
            t.entry_renames,
            a.registry,
            false,
            b.registry,
            registry_kind,
        );
        assert(moves(t.style, t.entry_renames, a.path, glob, b.path, path_kind));
        assert(moves(t.style, t.entry_renames, a.registry, false, b.registry, registry_kind));
    }
}

/// The evidence takes the finding at `f` to `g`: its path goes where the renames
/// take it, and its rule and unit stay.
pub open spec fn finding_moves(
    t: TransitionView,
    f: FindingAddressView,
    g: FindingAddressView,
) -> bool {
    &&& g.rule == f.rule
    &&& g.unit == f.unit
    &&& exists|kind: Option<MovementKind>| #[trigger]
        moves(t.style, t.renames, f.path, false, g.path, kind)
}

/// A finding goes where its file goes, whether or not an entry goes there.
pub proof fn lemma_finding_goes_with_its_file(
    t: TransitionView,
    f: FindingAddressView,
    g: FindingAddressView,
)
    ensures
        finding_moves(t, f, g) <==> mapped_finding(t, f) == g,
{
    if finding_moves(t, f, g) {
        let kind = choose|kind: Option<MovementKind>| #[trigger]
            moves(t.style, t.renames, f.path, false, g.path, kind);
        lemma_path_goes_one_way(t.style, t.renames, f.path, false, g.path, kind);
    }
    if mapped_finding(t, f) == g {
        let kind = mapped_path(t.style, t.renames, f.path, false).1;
        lemma_path_goes_one_way(t.style, t.renames, f.path, false, g.path, kind);
        assert(moves(t.style, t.renames, f.path, false, g.path, kind));
    }
}

} // verus!
