//! How paths are read, said of paths put together from names.

use vstd::prelude::*;

use crate::history::config_path::{inner, is_committed, is_inside, steps_up};
use crate::path_start::{
    after_part, first_len, first_part, has_drive, is_doubled, is_rooted, is_separator,
    is_share_mark, lead_len,
    lemma_first_len, lemma_first_len_is, prefix, prefix_len, separators, start, starts_plainly,
    usual, PathStyle, PrefixKind, PrefixView, Separators,
};
use crate::paths::{
    file_name, from_name, from_name_at, is_void, joined_to, last_start, leads_down,
    lemma_names_split, names, names_in, parent, rest_after, step_up, without_last, without_voids,
};
use crate::text::Text;

verus! {

// ---------------------------------------------------------------------------
// Names
// ---------------------------------------------------------------------------

/// The character separates names on the platform: a slash, and on Windows a
/// backslash too.
pub open spec fn parts_names(style: PathStyle, c: char) -> bool {
    c == '/' || (style == PathStyle::Windows && c == '\\')
}

/// A name as a file has it: it says something, holds no separator and is not
/// `.`. On Windows it holds no colon.
pub open spec fn is_name(style: PathStyle, name: Text) -> bool {
    &&& name.len() > 0
    &&& name != seq!['.']
    &&& forall|i: int|
        #![trigger name[i]]
        0 <= i < name.len() ==> !parts_names(style, name[i]) && (style == PathStyle::Windows
            ==> name[i] != ':')
}

/// The path starts with a name.
pub open spec fn is_relative(style: PathStyle, path: Text) -> bool {
    exists|first: Text, rest: Text| #[trigger] starts_with_name(style, path, first, rest)
}

/// The path is a name, and behind it nothing, or a separator and more.
pub open spec fn starts_with_name(
    style: PathStyle,
    path: Text,
    first: Text,
    rest: Text,
) -> bool {
    &&& is_name(style, first)
    &&& path == first + rest
    &&& rest.len() > 0 ==> parts_names(style, rest[0])
}

proof fn lemma_parts(style: PathStyle, c: char)
    ensures
        parts_names(style, c) <==> is_separator(usual(style), c),
{
}

proof fn lemma_relative_lead(style: PathStyle, path: Text)
    requires
        is_relative(style, path),
    ensures
        path.len() > 0,
        prefix(style, path).kind == PrefixKind::Absent,
        prefix_len(style, path) == 0,
        lead_len(style, path) == 0,
        separators(style, path) == usual(style),
        starts_plainly(style, path),
        !start(style, path).here,
        path.skip(0) == path,
{
    let (first, rest) = choose|first: Text, rest: Text| #[trigger]
        starts_with_name(style, path, first, rest);
    assert(path[0] == first[0]);
    lemma_parts(style, path[0]);
    if first.len() > 1 {
        assert(path[1] == first[1]);
        lemma_parts(style, path[1]);
    } else if rest.len() > 0 {
        assert(path[1] == rest[0]);
        lemma_parts(style, path[1]);
    }
    if first.len() == 1 && first[0] == '.' {
        assert(first =~= seq!['.']);
    }
    if style == PathStyle::Windows {
        assert(!is_doubled(path));
        assert(!has_drive(path));
    }
    assert(path.skip(0) =~= path);
}

proof fn lemma_one_name(style: PathStyle, name: Text)
    requires
        is_name(style, name),
    ensures
        names_in(usual(style), name) == seq![name],
        is_relative(style, name),
        !is_void(usual(style), name),
        forall|i: int|
            #![trigger name[i]]
            0 <= i < name.len() ==> !is_separator(usual(style), name[i]),
{
    let by = usual(style);
    assert forall|i: int| #![trigger name[i]] 0 <= i < name.len() implies !is_separator(
        by,
        name[i],
    ) by {
        lemma_parts(style, name[i]);
    }
    lemma_first_len_is(by, name, name.len() as int);
    assert(name.take(name.len() as int) =~= name);
    assert(names_in(by, Seq::<char>::empty()) =~= Seq::<Text>::empty());
    assert(names_in(by, name) =~= seq![name]);
    assert(name + Seq::<char>::empty() =~= name);
    assert(starts_with_name(style, name, name, Seq::empty()));
}

/// The names of a path are those before a separator and those behind it, and
/// those of a name is the name.
pub proof fn lemma_names_are_parted(style: PathStyle, a: Text, c: char, b: Text)
    requires
        parts_names(style, c),
        is_relative(style, a),
        is_relative(style, b),
    ensures
        names(style, a.push(c) + b) == names(style, a) + names(style, b),
        is_name(style, a) ==> names(style, a) == seq![a],
{
    let path = a.push(c) + b;
    let by = usual(style);
    lemma_parts(style, c);
    lemma_relative_lead(style, a);
    lemma_relative_lead(style, b);
    lemma_longer_is_relative(style, a, c, b);
    lemma_relative_lead(style, path);
    lemma_names_split(by, a, c, b);
    if is_name(style, a) {
        lemma_one_name(style, a);
    }
}

proof fn lemma_longer_is_relative(style: PathStyle, a: Text, c: char, b: Text)
    requires
        parts_names(style, c),
        is_relative(style, a),
    ensures
        is_relative(style, a.push(c) + b),
{
    let path = a.push(c) + b;
    let (first, rest) = choose|first: Text, rest: Text| #[trigger]
        starts_with_name(style, a, first, rest);
    let more = rest.push(c) + b;
    assert(path =~= first + more);
    assert(more[0] == (if rest.len() > 0 {
        rest[0]
    } else {
        c
    }));
    assert(starts_with_name(style, path, first, more));
}

proof fn lemma_names_behind(style: PathStyle, a: Text, c: char, b: Text)
    requires
        parts_names(style, c),
        is_relative(style, a),
    ensures
        names(style, a.push(c) + b) == names(style, a) + names_in(usual(style), b),
{
    lemma_parts(style, c);
    lemma_relative_lead(style, a);
    lemma_longer_is_relative(style, a, c, b);
    lemma_relative_lead(style, a.push(c) + b);
    lemma_names_split(usual(style), a, c, b);
}

proof fn lemma_nothing_is_named(style: PathStyle, c: char, b: Text)
    requires
        parts_names(style, c),
    ensures
        names_in(usual(style), Seq::empty()) == Seq::<Text>::empty(),
        names_in(usual(style), seq![c] + b) == names_in(usual(style), b),
        names_in(usual(style), seq!['.', c] + b) == names_in(usual(style), b),
{
    let by = usual(style);
    let none = Seq::<char>::empty();
    let dot = seq!['.'];
    lemma_parts(style, c);
    assert(names_in(by, none) =~= Seq::<Text>::empty());
    assert(none.push(c) + b =~= seq![c] + b);
    lemma_names_split(by, none, c, b);
    assert(names_in(by, none) + names_in(by, b) =~= names_in(by, b));
    lemma_first_len_is(by, dot, 1);
    assert(dot.take(1) =~= dot);
    assert(names_in(by, dot) =~= Seq::<Text>::empty());
    assert(dot.push(c) + b =~= seq!['.', c] + b);
    lemma_names_split(by, dot, c, b);
}

/// Doubled separators and `.` between names say nothing.
pub proof fn lemma_empty_parts_say_nothing(style: PathStyle, a: Text, c: char, b: Text)
    requires
        parts_names(style, c),
        is_relative(style, a),
    ensures
        names(style, a.push(c) + (seq![c] + b)) == names(style, a.push(c) + b),
        names(style, a.push(c) + (seq!['.', c] + b)) == names(style, a.push(c) + b),
        names(style, a.push(c)) == names(style, a),
{
    let none = Seq::<char>::empty();
    lemma_nothing_is_named(style, c, b);
    lemma_names_behind(style, a, c, b);
    lemma_names_behind(style, a, c, seq![c] + b);
    lemma_names_behind(style, a, c, seq!['.', c] + b);
    lemma_names_behind(style, a, c, none);
    assert(a.push(c) + none =~= a.push(c));
    assert(names(style, a) + Seq::<Text>::empty() =~= names(style, a));
}

/// A letter that can name a drive.
pub open spec fn is_letter(c: char) -> bool {
    'a' <= c <= 'z' || 'A' <= c <= 'Z'
}

/// Only a path that starts with a name and has no step up leads down.
pub proof fn lemma_what_leads_down(
    style: PathStyle,
    path: Text,
    c: char,
    letter: char,
    rest: Text,
)
    requires
        parts_names(style, c),
    ensures
        is_relative(style, path) ==> (leads_down(style, path) <==> !names(style, path).contains(
            seq!['.', '.'],
        )),
        !leads_down(style, seq![c] + rest),
        !leads_down(style, seq!['.']),
        !leads_down(style, seq!['.', c] + rest),
        style == PathStyle::Windows && is_letter(letter) ==> !leads_down(
            style,
            seq![letter, ':'] + rest,
        ),
{
    if is_relative(style, path) {
        lemma_relative_lead(style, path);
    }
    lemma_parts(style, c);
    let rooted = seq![c] + rest;
    assert(rooted[0] == c);
    if prefix(style, rooted).kind == PrefixKind::Absent {
        assert(is_rooted(style, rooted));
    }
    let dotted = seq!['.', c] + rest;
    assert(dotted[0] == '.' && dotted[1] == c);
    assert(prefix(style, dotted).kind == PrefixKind::Absent);
    assert(start(style, dotted).here);
    let dot = seq!['.'];
    assert(prefix(style, dot).kind == PrefixKind::Absent);
    assert(start(style, dot).here);
    if style == PathStyle::Windows && is_letter(letter) {
        let drive = seq![letter, ':'] + rest;
        assert(drive[0] == letter && drive[1] == ':');
        assert(prefix(style, drive).kind == PrefixKind::Disk);
    }
}

// ---------------------------------------------------------------------------
// Parents
// ---------------------------------------------------------------------------

/// The path is a lead of other parts, if any, and a name behind them.
pub open spec fn ends_with_name(style: PathStyle, path: Text, before: Text, name: Text) -> bool {
    &&& path == before + name
    &&& is_name(style, name)
    &&& before.len() > 0 ==> parts_names(style, before.last())
}

proof fn lemma_last_part(by: Separators, before: Text, name: Text)
    requires
        before.len() > 0 ==> is_separator(by, before.last()),
        forall|i: int| #![trigger name[i]] 0 <= i < name.len() ==> !is_separator(by, name[i]),
    ensures
        last_start(by, before + name, 0) == before.len(),
    decreases name.len(),
{
    let path = before + name;
    if name.len() > 0 {
        let shorter = name.drop_last();
        assert forall|i: int| #![trigger shorter[i]] 0 <= i < shorter.len() implies !is_separator(
            by,
            shorter[i],
        ) by {
            assert(shorter[i] == name[i]);
        }
        lemma_last_part(by, before, shorter);
        assert(path.drop_last() =~= before + shorter);
        assert(path.last() == name[name.len() - 1]);
    } else {
        assert(path =~= before);
    }
}

/// A path ends in its name: the file's, unless it is a step up.
pub proof fn lemma_path_ends_in_its_name(style: PathStyle, path: Text, before: Text, name: Text)
    requires
        is_relative(style, path),
        ends_with_name(style, path, before, name),
    ensures
        name != seq!['.', '.'] ==> file_name(style, path) == Some(name),
        name == seq!['.', '.'] ==> file_name(style, path) is None,
{
    let by = usual(style);
    lemma_relative_lead(style, path);
    lemma_one_name(style, name);
    if before.len() > 0 {
        lemma_parts(style, before.last());
    }
    lemma_last_part(by, before, name);
    assert(path.skip(before.len() as int) =~= name);
    assert(without_voids(by, path, 0) == path);
}

/// The parent of a name in a directory is the directory, and that of a name
/// alone is the empty path.
pub proof fn lemma_parent_is_the_directory(
    style: PathStyle,
    directory: Text,
    before: Text,
    last: Text,
    c: char,
    name: Text,
)
    requires
        parts_names(style, c),
        is_name(style, name),
        is_relative(style, directory),
        ends_with_name(style, directory, before, last),
    ensures
        parent(style, directory.push(c) + name) == Some(directory),
        parent(style, name) == Some(Seq::<char>::empty()),
        file_name(style, directory.push(c) + name) == file_name(style, name),
{
    let by = usual(style);
    let path = directory.push(c) + name;
    lemma_parts(style, c);
    lemma_longer_is_relative(style, directory, c, name);
    lemma_relative_lead(style, path);
    lemma_one_name(style, name);
    lemma_one_name(style, last);
    lemma_last_part(by, directory.push(c), name);
    assert(path.skip(directory.len() as int + 1) =~= name);
    assert(without_voids(by, path, 0) == path);
    assert(path.take(directory.len() as int) =~= directory);
    assert(without_last(by, path, 0) == directory);
    if before.len() > 0 {
        lemma_parts(style, before.last());
    }
    lemma_last_part(by, before, last);
    assert(directory.skip(before.len() as int) =~= last);
    assert(without_voids(by, directory, 0) == directory);
    let none = Seq::<char>::empty();
    lemma_relative_lead(style, name);
    assert(none + name =~= name);
    lemma_last_part(by, none, name);
    assert(name.skip(0) =~= name);
    assert(without_voids(by, name, 0) == name);
    assert(name.take(0) =~= none);
    assert(without_voids(by, none, 0) == none);
    lemma_path_ends_in_its_name(style, path, directory.push(c), name);
    lemma_path_ends_in_its_name(style, name, none, name);
}

// ---------------------------------------------------------------------------
// Joins
// ---------------------------------------------------------------------------

/// A path is written behind a base with one separator between them: that which
/// the base ends in, or the platform's own.
pub proof fn lemma_path_is_written_behind(base: Text, path: Text)
    ensures
        base.len() == 0 || base.last() == '/' ==> joined_to(PathStyle::Unix, base, path) == base
            + path,
        base.len() > 0 && base.last() != '/' ==> joined_to(PathStyle::Unix, base, path) == base
            + seq!['/'] + path,
        is_relative(PathStyle::Windows, base) && (base.last() == '/' || base.last() == '\\')
            ==> joined_to(PathStyle::Windows, base, path) == base + path,
        is_relative(PathStyle::Windows, base) && base.last() != '/' && base.last() != '\\'
            ==> joined_to(PathStyle::Windows, base, path) == base + seq!['\\'] + path,
{
    if is_relative(PathStyle::Windows, base) {
        lemma_relative_lead(PathStyle::Windows, base);
    }
}

// ---------------------------------------------------------------------------
// What lies below a root
// ---------------------------------------------------------------------------

proof fn lemma_from_the_names_behind(by: Separators, a: Text, c: char, b: Text)
    requires
        is_separator(by, c),
    ensures
        from_name_at(by, a.push(c) + b, names_in(by, a).len()) == from_name(by, b),
    decreases a.len(),
{
    let s = a.push(c) + b;
    let k = names_in(by, a).len();
    lemma_first_len(by, a);
    let n = first_len(by, a);
    assert forall|i: int| #![trigger s[i]] 0 <= i < n implies !is_separator(by, s[i]) by {
        assert(s[i] == a[i]);
    }
    lemma_first_len_is(by, s, n);
    assert(s.take(n) =~= a.take(n));
    let behind = after_part(by, s);
    if n < a.len() {
        let rest = after_part(by, a);
        assert(behind =~= rest.push(c) + b);
        lemma_from_the_names_behind(by, rest, c, b);
    } else {
        assert(behind =~= b);
        assert(a.take(n) =~= a);
        assert(names_in(by, Seq::<char>::empty()) =~= Seq::<Text>::empty());
    }
    if is_void(by, first_part(by, s)) {
        assert(from_name(by, s) == from_name(by, behind));
        assert(from_name_at(by, s, k) == from_name_at(by, behind, k));
    } else {
        assert(from_name(by, s) == s);
        assert(from_name_at(by, s, k) == from_name_at(by, behind, (k - 1) as nat));
    }
}

proof fn lemma_rooted(path: Text)
    requires
        path.len() > 0,
        path[0] == '/',
    ensures
        lead_len(PathStyle::Unix, path) == 1,
        prefix_len(PathStyle::Unix, path) == 0,
        separators(PathStyle::Unix, path) == Separators::Slash,
        start(PathStyle::Unix, path) == start(PathStyle::Unix, seq!['/']),
{
    let root = seq!['/'];
    assert(root[0] == '/');
    assert(start(PathStyle::Unix, path) =~= start(PathStyle::Unix, root));
}

/// What is written behind a root and a slash lies in it, and is what is left
/// below it. It belongs to the committed tree exactly when it has no step up.
pub proof fn lemma_below_a_root(root: Text, rest: Text, before: Text, last: Text)
    requires
        root.len() > 0,
        root[0] == '/',
        is_relative(PathStyle::Unix, rest),
        ends_with_name(PathStyle::Unix, rest, before, last),
    ensures
        is_inside(PathStyle::Unix, root.push('/') + rest, root),
        inner(PathStyle::Unix, root.push('/') + rest, root) == rest,
        is_committed(PathStyle::Unix, root.push('/') + rest, root) <==> !names(
            PathStyle::Unix,
            rest,
        ).contains(seq!['.', '.']),
        steps_up(PathStyle::Unix, rest) <==> names(PathStyle::Unix, rest).contains(
            seq!['.', '.'],
        ),
{
    let style = PathStyle::Unix;
    let by = Separators::Slash;
    let path = root.push('/') + rest;
    lemma_rooted(path);
    lemma_rooted(root);
    let a = root.skip(1);
    let body = path.skip(1);
    assert(body =~= a.push('/') + rest);
    lemma_names_split(by, a, '/', rest);
    assert(names(style, root) == names_in(by, a));
    assert(names(style, path) == names_in(by, a) + names_in(by, rest));
    assert(names(style, root).is_prefix_of(names(style, path)));
    lemma_from_the_names_behind(by, a, '/', rest);
    lemma_relative_lead(style, rest);
    let (first, more) = choose|first: Text, more: Text| #[trigger]
        starts_with_name(style, rest, first, more);
    lemma_one_name(style, first);
    assert forall|i: int| #![trigger rest[i]] 0 <= i < first.len() implies !is_separator(
        by,
        rest[i],
    ) by {
        assert(rest[i] == first[i]);
    }
    if more.len() > 0 {
        assert(rest[first.len() as int] == more[0]);
    }
    lemma_first_len_is(by, rest, first.len() as int);
    assert(rest.take(first.len() as int) =~= first);
    assert(from_name(by, rest) == rest);
    lemma_one_name(style, last);
    lemma_last_part(by, before, last);
    assert(rest.skip(before.len() as int) =~= last);
    assert(without_voids(by, rest, 0) == rest);
    assert(rest_after(style, path, names(style, root).len()) == rest);
    assert(step_up() =~= seq!['.', '.']);
}

/// What does not start with the names of a root lies outside of it, and so does
/// a path that starts elsewhere.
pub proof fn lemma_outside_a_root(root: Text, path: Text)
    requires
        root.len() > 0,
        root[0] == '/',
    ensures
        is_relative(PathStyle::Unix, path) ==> !is_inside(PathStyle::Unix, path, root),
        !names(PathStyle::Unix, root).is_prefix_of(names(PathStyle::Unix, path)) ==> !is_inside(
            PathStyle::Unix,
            path,
            root,
        ),
{
    lemma_rooted(root);
    if is_relative(PathStyle::Unix, path) {
        lemma_relative_lead(PathStyle::Unix, path);
    }
}

// ---------------------------------------------------------------------------
// Prefixes
// ---------------------------------------------------------------------------

/// A letter and a colon name a drive on Windows, and nothing on Unix. Its case
/// does not matter, and two drives are two starts.
pub proof fn lemma_drive_is_read(letter: char, rest: Text, other: char, more: Text)
    requires
        'A' <= letter <= 'Z',
        'A' <= other <= 'Z',
    ensures
        prefix(PathStyle::Windows, seq![letter, ':'] + rest) == (PrefixView {
            kind: PrefixKind::Disk,
            first: seq![letter],
            second: Seq::empty(),
        }),
        prefix_len(PathStyle::Windows, seq![letter, ':'] + rest) == 2,
        start(PathStyle::Windows, seq![(letter as u8 + 32) as char, ':'] + rest) == start(
            PathStyle::Windows,
            seq![letter, ':'] + rest,
        ),
        letter != other ==> start(PathStyle::Windows, seq![letter, ':'] + rest) != start(
            PathStyle::Windows,
            seq![other, ':'] + more,
        ),
        prefix(PathStyle::Unix, seq![letter, ':'] + rest).kind == PrefixKind::Absent,
{
    let small = (letter as u8 + 32) as char;
    let a = seq![letter, ':'] + rest;
    let b = seq![small, ':'] + rest;
    let c = seq![other, ':'] + more;
    assert(a[0] == letter && a[1] == ':');
    assert(b[0] == small && b[1] == ':');
    assert(c[0] == other && c[1] == ':');
    assert('a' <= small <= 'z');
    assert((small as u8 - 32) as char == letter);
    assert(prefix(PathStyle::Windows, a) =~= PrefixView {
        kind: PrefixKind::Disk,
        first: seq![letter],
        second: Seq::empty(),
    });
    assert(prefix(PathStyle::Windows, b) =~= prefix(PathStyle::Windows, a));
    assert forall|i: int| #![trigger a[i]] 2 <= i < a.len() implies a[i] == b[i] by {}
    assert(start(PathStyle::Windows, b) =~= start(PathStyle::Windows, a));
    if letter != other {
        assert(prefix(PathStyle::Windows, c).first[0] == other);
        assert(prefix(PathStyle::Windows, a).first[0] == letter);
    }
}

proof fn lemma_part_is_first(by: Separators, part: Text, rest: Text)
    requires
        forall|i: int| #![trigger part[i]] 0 <= i < part.len() ==> !is_separator(by, part[i]),
        rest.len() > 0 ==> is_separator(by, rest[0]),
    ensures
        first_part(by, part + rest) == part,
        rest.len() > 0 ==> after_part(by, part + rest) == rest.skip(1),
        rest.len() == 0 ==> after_part(by, part + rest) == Seq::<char>::empty(),
{
    let s = part + rest;
    let n = part.len() as int;
    assert forall|i: int| #![trigger s[i]] 0 <= i < n implies !is_separator(by, s[i]) by {
        assert(s[i] == part[i]);
    }
    if rest.len() > 0 {
        assert(s[n] == rest[0]);
    }
    lemma_first_len_is(by, s, n);
    assert(s.take(n) =~= part);
    if rest.len() > 0 {
        assert(s.skip(n + 1) =~= rest.skip(1));
    }
}

/// Two separators before a name on Windows start at a share: the name of its
/// server and its own. The root behind it need not be written.
pub proof fn lemma_share_is_read(a: char, b: char, server: Text, c: char, share: Text, rest: Text)
    requires
        parts_names(PathStyle::Windows, a),
        parts_names(PathStyle::Windows, b),
        parts_names(PathStyle::Windows, c),
        is_name(PathStyle::Windows, server),
        is_name(PathStyle::Windows, share),
        server != seq!['?'],
        rest.len() > 0 ==> parts_names(PathStyle::Windows, rest[0]),
    ensures
        ({
            let path = seq![a, b] + (server + (seq![c] + (share + rest)));
            &&& prefix(PathStyle::Windows, path) == (PrefixView {
                kind: PrefixKind::Share,
                first: server,
                second: share,
            })
            &&& prefix_len(PathStyle::Windows, path) == 3 + server.len() + share.len()
            &&& start(PathStyle::Windows, path).rooted
        }),
{
    let style = PathStyle::Windows;
    let by = Separators::Both;
    let tail = share + rest;
    let more = seq![c] + tail;
    let path = seq![a, b] + (server + more);
    lemma_one_name(style, server);
    lemma_one_name(style, share);
    lemma_parts(style, a);
    lemma_parts(style, b);
    lemma_parts(style, c);
    if rest.len() > 0 {
        lemma_parts(style, rest[0]);
    }
    assert(path[0] == a && path[1] == b);
    assert(path[2] == server[0]);
    assert(path.skip(2) =~= server + more);
    lemma_part_is_first(by, server, more);
    assert(more.skip(1) =~= tail);
    lemma_part_is_first(by, share, rest);
    if server.len() == 1 {
        assert(path[3] == c);
        assert(server =~= seq![server[0]]);
        assert(server[0] != '?' && server[0] != '.');
    } else {
        assert(path[3] == server[1]);
    }
    assert(prefix(style, path) =~= PrefixView {
        kind: PrefixKind::Share,
        first: server,
        second: share,
    });
}

/// Behind `\\?\` a path is taken as it is written: only a backslash separates
/// there, and a `.` is a name. Behind `\\.\` stands a device.
pub proof fn lemma_marks_are_read(name: Text, rest: Text)
    requires
        is_name(PathStyle::Windows, name),
        name != seq!['U', 'N', 'C'],
        rest.len() > 0 ==> rest[0] == '\\',
    ensures
        ({
            let path = seq!['\\', '\\', '?', '\\'] + (name + rest);
            &&& prefix(PathStyle::Windows, path) == (PrefixView {
                kind: PrefixKind::Verbatim,
                first: name,
                second: Seq::empty(),
            })
            &&& prefix_len(PathStyle::Windows, path) == 4 + name.len()
            &&& separators(PathStyle::Windows, path) == Separators::Backslash
        }),
        ({
            let path = seq!['\\', '\\', '.', '\\'] + (name + rest);
            &&& prefix(PathStyle::Windows, path) == (PrefixView {
                kind: PrefixKind::Device,
                first: name,
                second: Seq::empty(),
            })
            &&& prefix_len(PathStyle::Windows, path) == 4 + name.len()
            &&& separators(PathStyle::Windows, path) == Separators::Both
            &&& start(PathStyle::Windows, path).rooted
        }),
        is_void(Separators::Both, seq!['.']) && !is_void(Separators::Backslash, seq!['.']),
{
    let style = PathStyle::Windows;
    let s = name + rest;
    lemma_one_name(style, name);
    assert forall|i: int| #![trigger name[i]] 0 <= i < name.len() implies !is_separator(
        Separators::Backslash,
        name[i],
    ) by {
        assert(!is_separator(Separators::Both, name[i]));
    }
    lemma_part_is_first(Separators::Backslash, name, rest);
    lemma_part_is_first(Separators::Both, name, rest);
    assert(s[0] == name[0]);
    assert(!has_drive(s)) by {
        if s.len() >= 2 {
            if name.len() >= 2 {
                assert(s[1] == name[1]);
            } else {
                assert(s[1] == rest[0]);
            }
        }
    }
    assert(!is_share_mark(s)) by {
        if is_share_mark(s) {
            if name.len() >= 4 {
                assert(s[3] == name[3]);
            } else if name.len() == 3 {
                assert(s[0] == name[0] && s[1] == name[1] && s[2] == name[2]);
                assert(name =~= seq!['U', 'N', 'C']);
            } else if name.len() == 2 {
                assert(s[2] == rest[0]);
            } else {
                assert(s[1] == rest[0]);
            }
        }
    }
    let a = seq!['\\', '\\', '?', '\\'] + s;
    assert(a.skip(4) =~= s);
    assert(prefix(style, a) =~= PrefixView {
        kind: PrefixKind::Verbatim,
        first: name,
        second: Seq::empty(),
    });
    let b = seq!['\\', '\\', '.', '\\'] + s;
    assert(b.skip(4) =~= s);
    assert(b[2] == '.');
    assert(prefix(style, b) =~= PrefixView {
        kind: PrefixKind::Device,
        first: name,
        second: Seq::empty(),
    });
}

/// Behind `\\?\UNC\` stands a share, taken as it is written.
pub proof fn lemma_verbatim_share_is_read(server: Text, share: Text, rest: Text)
    requires
        is_name(PathStyle::Windows, server),
        is_name(PathStyle::Windows, share),
        rest.len() > 0 ==> rest[0] == '\\',
    ensures
        ({
            let path = seq!['\\', '\\', '?', '\\'] + (seq!['U', 'N', 'C', '\\'] + (server + (
            seq!['\\'] + (share + rest))));
            &&& prefix(PathStyle::Windows, path) == (PrefixView {
                kind: PrefixKind::VerbatimShare,
                first: server,
                second: share,
            })
            &&& prefix_len(PathStyle::Windows, path) == 9 + server.len() + share.len()
            &&& separators(PathStyle::Windows, path) == Separators::Backslash
        }),
{
    let style = PathStyle::Windows;
    let by = Separators::Backslash;
    let tail = share + rest;
    let more = seq!['\\'] + tail;
    let named = server + more;
    let marked = seq!['U', 'N', 'C', '\\'] + named;
    let path = seq!['\\', '\\', '?', '\\'] + marked;
    assert forall|i: int| #![trigger server[i]] 0 <= i < server.len() implies !is_separator(
        by,
        server[i],
    ) by {}
    assert forall|i: int| #![trigger share[i]] 0 <= i < share.len() implies !is_separator(
        by,
        share[i],
    ) by {}
    assert(path.skip(4) =~= marked);
    assert(marked.skip(4) =~= named);
    assert(is_share_mark(marked));
    lemma_part_is_first(by, server, more);
    assert(more.skip(1) =~= tail);
    lemma_part_is_first(by, share, rest);
    assert(prefix(style, path) =~= PrefixView {
        kind: PrefixKind::VerbatimShare,
        first: server,
        second: share,
    });
}

/// Behind `\\?\` a letter and a colon name a drive, if nothing or a separator
/// follows.
pub proof fn lemma_verbatim_drive_is_read(letter: char, rest: Text)
    requires
        'A' <= letter <= 'Z',
        rest.len() > 0 ==> parts_names(PathStyle::Windows, rest[0]),
    ensures
        ({
            let path = seq!['\\', '\\', '?', '\\'] + (seq![letter, ':'] + rest);
            &&& prefix(PathStyle::Windows, path) == (PrefixView {
                kind: PrefixKind::VerbatimDisk,
                first: seq![letter],
                second: Seq::empty(),
            })
            &&& prefix_len(PathStyle::Windows, path) == 6
            &&& separators(PathStyle::Windows, path) == Separators::Backslash
        }),
{
    let style = PathStyle::Windows;
    let s = seq![letter, ':'] + rest;
    let path = seq!['\\', '\\', '?', '\\'] + s;
    if rest.len() > 0 {
        lemma_parts(style, rest[0]);
        assert(s[2] == rest[0]);
    }
    assert(s[0] == letter && s[1] == ':');
    assert(path.skip(4) =~= s);
    assert(prefix(style, path) =~= PrefixView {
        kind: PrefixKind::VerbatimDisk,
        first: seq![letter],
        second: Seq::empty(),
    });
}

} // verus!
