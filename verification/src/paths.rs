//! Paths as text: names, parents, joins, and what is left below another path.
//! Parts that say nothing are passed over.

use vstd::prelude::*;
use vstd::string::*;

use crate::path_start::{
    after_part, first_len, first_part, is_dotted, is_separator, is_verbatim, lead_len, lead_of,
    lemma_first_len, lemma_first_len_is, lemma_prefix_len, part_after, part_end, prefix,
    prefix_len, same_start, separates, separators, start, starts_plainly, usual, PathStyle,
    PrefixKind, Separators,
};
use crate::text::{chars_of, join, joined, same, text_range, Text};

verus! {

// ---------------------------------------------------------------------------
// What they mean
// ---------------------------------------------------------------------------

/// A part that says nothing: it is empty, or `.` where paths are not taken as
/// they are written.
pub open spec fn is_void(by: Separators, part: Text) -> bool {
    part.len() == 0 || (by != Separators::Backslash && part =~= seq!['.'])
}

/// The parts of a text that say something.
pub open spec fn names_in(by: Separators, s: Text) -> Seq<Text>
    decreases s.len(),
    via names_in_shrinks
{
    if s.len() == 0 {
        Seq::empty()
    } else if is_void(by, first_part(by, s)) {
        names_in(by, after_part(by, s))
    } else {
        seq![first_part(by, s)] + names_in(by, after_part(by, s))
    }
}

#[via_fn]
proof fn names_in_shrinks(by: Separators, s: Text) {
    lemma_first_len(by, s);
}

/// The names of a path after its lead, its `..` steps among them.
pub open spec fn names(style: PathStyle, path: Text) -> Seq<Text> {
    names_in(separators(style, path), path.skip(lead_len(style, path)))
}

/// The step to the directory above.
pub open spec fn step_up() -> Text {
    seq!['.', '.']
}

/// Where the last part of `path` starts, looking no further left than `floor`.
pub open spec fn last_start(by: Separators, path: Text, floor: int) -> int
    decreases path.len(),
{
    if path.len() <= floor || path.len() == 0 || is_separator(by, path.last()) {
        path.len() as int
    } else {
        last_start(by, path.drop_last(), floor)
    }
}

/// `path` without its last part and the separator before it.
pub open spec fn without_last(by: Separators, path: Text, floor: int) -> Text {
    let at = last_start(by, path, floor);
    if at > floor {
        path.take(at - 1)
    } else {
        path.take(at)
    }
}

/// `path` without the trailing parts that say nothing.
pub open spec fn without_voids(by: Separators, path: Text, floor: int) -> Text
    decreases path.len(),
    when 0 <= floor
    via without_voids_shrinks
{
    if path.len() > floor && is_void(by, path.skip(last_start(by, path, floor))) {
        without_voids(by, without_last(by, path, floor), floor)
    } else {
        path
    }
}

#[via_fn]
proof fn without_voids_shrinks(by: Separators, path: Text, floor: int) {
    lemma_last_start(by, path, floor);
}

/// The last part starts after a separator or at the floor.
proof fn lemma_last_start(by: Separators, path: Text, floor: int)
    requires
        0 <= floor,
    ensures
        path.len() >= floor ==> floor <= last_start(by, path, floor) <= path.len(),
        path.len() < floor ==> last_start(by, path, floor) == path.len(),
        last_start(by, path, floor) > floor ==> path.len() > floor ==> is_separator(
            by,
            path[last_start(by, path, floor) - 1],
        ),
    decreases path.len(),
{
    if path.len() > floor && !is_separator(by, path.last()) {
        lemma_last_start(by, path.drop_last(), floor);
    }
}

/// The directory that holds what `path` names: `None` for a root, a prefix and
/// the empty path.
pub open spec fn parent(style: PathStyle, path: Text) -> Option<Text> {
    let by = separators(style, path);
    let floor = lead_len(style, path);
    let body = without_voids(by, path, floor);
    if body.len() > floor {
        Some(without_voids(by, without_last(by, body, floor), floor))
    } else if start(style, path).here {
        Some(Seq::<char>::empty())
    } else {
        None
    }
}

/// The name in the last part, if that is a name.
pub open spec fn file_name(style: PathStyle, path: Text) -> Option<Text> {
    let by = separators(style, path);
    let floor = lead_len(style, path);
    let body = without_voids(by, path, floor);
    let name = body.skip(last_start(by, body, floor));
    if body.len() > floor && name != step_up() && name != seq!['.'] {
        Some(name)
    } else {
        None
    }
}

/// A path that only leads down: it starts with a name and never steps up.
pub open spec fn leads_down(style: PathStyle, path: Text) -> bool {
    starts_plainly(style, path) && !names(style, path).contains(step_up())
}

/// The separator that the platform itself writes.
pub open spec fn separator(style: PathStyle) -> Text {
    match style {
        PathStyle::Unix => seq!['/'],
        PathStyle::Windows => seq!['\\'],
    }
}

/// A `path` that leads down, seen from `base`. A base that is taken as it is
/// written is written out with the names of both.
pub open spec fn joined_to(style: PathStyle, base: Text, path: Text) -> Text {
    if is_verbatim(style, base) && path.len() > 0 {
        base.take(prefix_len(style, base)) + separator(style) + join(
            names(style, base) + names(style, path),
            separator(style),
        )
    } else if base.len() == 0 || is_separator(usual(style), base.last()) || (prefix(
        style,
        base,
    ).kind == PrefixKind::Disk && base.len() == 2) {
        base + path
    } else {
        base + separator(style) + path
    }
}

/// `s` without the leading parts that say nothing.
pub open spec fn from_name(by: Separators, s: Text) -> Text
    decreases s.len(),
    via from_name_shrinks
{
    if s.len() > 0 && is_void(by, first_part(by, s)) {
        from_name(by, after_part(by, s))
    } else {
        s
    }
}

#[via_fn]
proof fn from_name_shrinks(by: Separators, s: Text) {
    lemma_first_len(by, s);
}

/// `s` from its name `k` on.
pub open spec fn from_name_at(by: Separators, s: Text, k: nat) -> Text
    decreases k,
{
    if k == 0 {
        from_name(by, s)
    } else {
        from_name_at(by, after_part(by, from_name(by, s)), (k - 1) as nat)
    }
}

/// What is left of `path` after its start and its first `k` names.
pub open spec fn rest_after(style: PathStyle, path: Text, k: nat) -> Text {
    let by = separators(style, path);
    let s = start(style, path);
    let rest = if k == 0 && !s.rooted && !s.here {
        path.skip(prefix_len(style, path))
    } else {
        from_name_at(by, path.skip(lead_len(style, path)), k)
    };
    without_voids(by, rest, 0)
}

// ---------------------------------------------------------------------------
// What is left keeps its names
// ---------------------------------------------------------------------------

/// A separator parts the names before it from those behind it.
pub proof fn lemma_names_split(by: Separators, a: Text, c: char, b: Text)
    requires
        is_separator(by, c),
    ensures
        names_in(by, a.push(c) + b) == names_in(by, a) + names_in(by, b),
    decreases a.len(),
{
    let s = a.push(c) + b;
    lemma_first_len(by, a);
    let n = first_len(by, a);
    assert forall|k: int| #![trigger s[k]] 0 <= k < n implies !is_separator(by, s[k]) by {
        assert(s[k] == a[k]);
    }
    lemma_first_len_is(by, s, n);
    assert(s.take(n) =~= a.take(n));
    if n < a.len() {
        let rest = after_part(by, a);
        assert(s.skip(n + 1) =~= rest.push(c) + b);
        lemma_names_split(by, rest, c, b);
    } else {
        assert(s.skip(n + 1) =~= b);
        assert(a.take(n) =~= a);
        assert(names_in(by, Seq::<char>::empty()) =~= Seq::<Text>::empty());
    }
    assert(names_in(by, s) =~= names_in(by, a) + names_in(by, b));
}

/// A part that says nothing holds no name.
proof fn lemma_void_has_no_names(by: Separators, part: Text)
    requires
        is_void(by, part),
    ensures
        names_in(by, part) == Seq::<Text>::empty(),
{
    assert(names_in(by, Seq::<char>::empty()) =~= Seq::<Text>::empty());
    if part.len() > 0 {
        lemma_first_len_is(by, part, 1);
        assert(part.take(1) =~= part);
    } else {
        assert(part =~= Seq::<char>::empty());
    }
}

proof fn lemma_from_name_keeps_names(by: Separators, s: Text)
    ensures
        names_in(by, from_name(by, s)) == names_in(by, s),
    decreases s.len(),
{
    if s.len() > 0 && is_void(by, first_part(by, s)) {
        lemma_first_len(by, s);
        lemma_from_name_keeps_names(by, after_part(by, s));
    }
}

/// The rest of `from_name` starts with a name, unless it is empty.
proof fn lemma_from_name_starts(by: Separators, s: Text)
    ensures
        from_name(by, s).len() > 0 ==> !is_void(by, first_part(by, from_name(by, s))),
    decreases s.len(),
{
    if s.len() > 0 && is_void(by, first_part(by, s)) {
        lemma_first_len(by, s);
        lemma_from_name_starts(by, after_part(by, s));
    }
}

proof fn lemma_from_name_at_keeps_names(by: Separators, s: Text, k: nat)
    requires
        k <= names_in(by, s).len(),
    ensures
        names_in(by, from_name_at(by, s, k)) == names_in(by, s).skip(k as int),
    decreases k,
{
    lemma_from_name_keeps_names(by, s);
    let t = from_name(by, s);
    if k == 0 {
        assert(names_in(by, s).skip(0) =~= names_in(by, s));
    } else {
        lemma_from_name_starts(by, s);
        let rest = after_part(by, t);
        assert(names_in(by, t) == seq![first_part(by, t)] + names_in(by, rest));
        lemma_from_name_at_keeps_names(by, rest, (k - 1) as nat);
        assert(names_in(by, rest).skip(k - 1) =~= names_in(by, s).skip(k as int));
    }
}

proof fn lemma_without_voids_keeps_names(by: Separators, s: Text)
    ensures
        names_in(by, without_voids(by, s, 0)) == names_in(by, s),
    decreases s.len(),
{
    let at = last_start(by, s, 0);
    if s.len() > 0 && is_void(by, s.skip(at)) {
        lemma_last_start(by, s, 0);
        let head = without_last(by, s, 0);
        lemma_without_voids_keeps_names(by, head);
        lemma_void_has_no_names(by, s.skip(at));
        if at > 0 {
            assert(s =~= head.push(s[at - 1]) + s.skip(at));
            lemma_names_split(by, head, s[at - 1], s.skip(at));
            assert(names_in(by, s) =~= names_in(by, head));
        } else {
            assert(s.skip(0) =~= s);
        }
    }
}

/// A step up between backslashes is one where slashes separate too.
proof fn lemma_step_up_is_seen(s: Text)
    requires
        names_in(Separators::Backslash, s).contains(step_up()),
    ensures
        names_in(Separators::Both, s).contains(step_up()),
    decreases s.len(),
{
    let one = Separators::Backslash;
    let two = Separators::Both;
    lemma_first_len(one, s);
    let n = first_len(one, s);
    let part = s.take(n);
    let rest = after_part(one, s);
    let all = names_in(two, s);
    if n < s.len() {
        assert(s =~= part.push(s[n]) + rest);
        lemma_names_split(two, part, s[n], rest);
    } else {
        assert(s =~= part);
        assert(all =~= names_in(two, part) + names_in(two, rest));
    }
    let found = names_in(one, s);
    let k = choose|k: int| 0 <= k < found.len() && found[k] == step_up();
    let head = names_in(two, part);
    if part == step_up() {
        lemma_first_len_is(two, part, 2);
        assert(part.take(2) =~= part);
        assert(head[0] == step_up());
        assert(all[0] == step_up());
    } else {
        let tail = names_in(one, rest);
        if part.len() == 0 {
            assert(tail[k] == step_up());
        } else {
            assert(found[k] == tail[k - 1]);
        }
        lemma_step_up_is_seen(rest);
        let later = names_in(two, rest);
        let m = choose|m: int| 0 <= m < later.len() && later[m] == step_up();
        assert(all[head.len() + m] == step_up());
    }
}

/// The text after the prefix has the names that follow the lead.
proof fn lemma_lead_has_no_names(style: PathStyle, path: Text)
    requires
        !start(style, path).rooted,
        !start(style, path).here,
    ensures
        names_in(separators(style, path), path.skip(prefix_len(style, path))) == names(
            style,
            path,
        ),
{
    let by = separators(style, path);
    let at = prefix_len(style, path);
    lemma_prefix_len(style, path);
    if is_dotted(style, path) {
        let s = path.skip(at);
        let dot = seq!['.'];
        lemma_void_has_no_names(by, dot);
        if s.len() == 1 {
            assert(s =~= dot);
            assert(path.skip(at + 1) =~= Seq::<char>::empty());
        } else {
            let rest = path.skip(at + 2);
            assert(s =~= dot.push(s[1]) + rest);
            lemma_names_split(by, dot, s[1], rest);
            let none = Seq::<char>::empty();
            assert(path.skip(at + 1) =~= none.push(s[1]) + rest);
            lemma_names_split(by, none, s[1], rest);
            assert(names_in(by, s) =~= names_in(by, rest));
            assert(names_in(by, path.skip(at + 1)) =~= names_in(by, rest));
        }
    }
}

/// A step up after the first names is one in what is left after them.
pub proof fn lemma_rest_keeps_steps_up(style: PathStyle, path: Text, k: nat)
    requires
        k <= names(style, path).len(),
        names(style, path).skip(k as int).contains(step_up()),
    ensures
        !leads_down(style, rest_after(style, path, k)),
{
    let by = separators(style, path);
    let s = start(style, path);
    let body = path.skip(lead_len(style, path));
    let rest = rest_after(style, path, k);
    if k == 0 && !s.rooted && !s.here {
        lemma_lead_has_no_names(style, path);
        lemma_without_voids_keeps_names(by, path.skip(prefix_len(style, path)));
        assert(names(style, path).skip(0) =~= names(style, path));
    } else {
        lemma_from_name_at_keeps_names(by, body, k);
        lemma_without_voids_keeps_names(by, from_name_at(by, body, k));
    }
    assert(names_in(by, rest).contains(step_up()));
    if starts_plainly(style, rest) {
        assert(rest.skip(0) =~= rest);
        if by == Separators::Backslash {
            lemma_step_up_is_seen(rest);
        }
    }
}

// ---------------------------------------------------------------------------
// Parts of a path
// ---------------------------------------------------------------------------

/// Where the last part of `chars[..end]` starts.
fn last_start_of(by: Separators, chars: &Vec<char>, end: usize, floor: usize) -> (r: usize)
    requires
        floor <= end <= chars@.len(),
    ensures
        r == last_start(by, chars@.take(end as int), floor as int),
        floor <= r <= end,
{
    let mut at: usize = end;
    while at > floor && !separates(by, chars[at - 1])
        invariant
            floor <= at <= end <= chars@.len(),
            last_start(by, chars@.take(end as int), floor as int) == last_start(
                by,
                chars@.take(at as int),
                floor as int,
            ),
        decreases at,
    {
        assert(chars@.take(at as int).drop_last() =~= chars@.take(at - 1));
        at -= 1;
    }
    assert(chars@.take(at as int).len() == at);
    at
}

/// Whether the part from `from` up to `to` says nothing.
fn void(by: Separators, chars: &Vec<char>, from: usize, to: usize) -> (r: bool)
    requires
        from <= to <= chars@.len(),
    ensures
        r == is_void(by, chars@.subrange(from as int, to as int)),
{
    let ghost part = chars@.subrange(from as int, to as int);
    let r: bool = from == to || (by != Separators::Backslash && to - from == 1 && chars[from]
        == '.');
    proof {
        if to - from == 1 {
            assert(part[0] == chars@[from as int]);
            assert(part =~= seq![chars@[from as int]]);
        }
    }
    r
}

/// The end of `chars[..end]` without the trailing parts that say nothing.
fn voids_cut(by: Separators, chars: &Vec<char>, end: usize, floor: usize) -> (r: usize)
    requires
        floor <= end <= chars@.len(),
    ensures
        floor <= r <= end,
        chars@.take(r as int) == without_voids(by, chars@.take(end as int), floor as int),
{
    let mut at: usize = end;
    loop
        invariant
            floor <= at <= end <= chars@.len(),
            without_voids(by, chars@.take(end as int), floor as int) == without_voids(
                by,
                chars@.take(at as int),
                floor as int,
            ),
        ensures
            floor <= at <= end,
            without_voids(by, chars@.take(end as int), floor as int) == chars@.take(at as int),
        decreases at,
    {
        if at <= floor {
            break;
        }
        let from: usize = last_start_of(by, chars, at, floor);
        let ghost here = chars@.take(at as int);
        proof {
            assert(here.skip(from as int) =~= chars@.subrange(from as int, at as int));
            lemma_last_start(by, here, floor as int);
        }
        if !void(by, chars, from, at) {
            break;
        }
        let next: usize = if from > floor {
            from - 1
        } else {
            from
        };
        assert(without_last(by, here, floor as int) =~= chars@.take(next as int));
        at = next;
    }
    at
}

/// The directory that holds what a path names.
pub fn parent_of(style: PathStyle, path: &str) -> (r: Option<String>)
    ensures
        r.deep_view() == parent(style, path@),
{
    let chars = chars_of(path);
    let lead = lead_of(style, &chars);
    let by = lead.by;
    let floor: usize = lead.len;
    assert(chars@.take(chars@.len() as int) =~= path@);
    let end: usize = voids_cut(by, &chars, chars.len(), floor);
    if end > floor {
        let from: usize = last_start_of(by, &chars, end, floor);
        let cut: usize = if from > floor {
            from - 1
        } else {
            from
        };
        assert(without_last(by, chars@.take(end as int), floor as int) =~= chars@.take(
            cut as int,
        ));
        let stop: usize = voids_cut(by, &chars, cut, floor);
        let text = text_range(&chars, 0, stop);
        assert(chars@.subrange(0, stop as int) =~= chars@.take(stop as int));
        Some(text)
    } else if lead.start.here {
        let empty = String::new();
        assert(empty@ =~= Seq::<char>::empty());
        Some(empty)
    } else {
        None
    }
}

/// The name in the last part of a path.
pub fn file_name_of(style: PathStyle, path: &str) -> (r: Option<String>)
    ensures
        r.deep_view() == file_name(style, path@),
{
    let chars = chars_of(path);
    let lead = lead_of(style, &chars);
    let by = lead.by;
    let floor: usize = lead.len;
    assert(chars@.take(chars@.len() as int) =~= path@);
    let end: usize = voids_cut(by, &chars, chars.len(), floor);
    let from: usize = last_start_of(by, &chars, end, floor);
    let name = text_range(&chars, from, end);
    proof {
        reveal_strlit(".");
        reveal_strlit("..");
        assert("."@ =~= seq!['.']);
        assert(".."@ =~= step_up());
        assert(name@ =~= chars@.take(end as int).skip(from as int));
    }
    if end > floor && !same(name.as_str(), "..") && !same(name.as_str(), ".") {
        Some(name)
    } else {
        None
    }
}

/// The names of a path after its lead.
pub fn names_of(style: PathStyle, path: &str) -> (r: Vec<String>)
    ensures
        r.deep_view() == names(style, path@),
{
    let chars = chars_of(path);
    let lead = lead_of(style, &chars);
    let by = lead.by;
    let mut r: Vec<String> = Vec::new();
    let mut at: usize = lead.len;
    let ghost all = names(style, path@);
    assert(r.deep_view() + all =~= all);
    while at < chars.len()
        invariant
            at <= chars@.len(),
            r.deep_view() + names_in(by, chars@.skip(at as int)) == all,
        decreases chars@.len() - at,
    {
        let ghost rest = chars@.skip(at as int);
        let end: usize = part_end(by, &chars, at);
        let next: usize = part_after(by, &chars, Ghost(at as int), end);
        proof {
            lemma_first_len(by, rest);
        }
        let ghost before = r.deep_view();
        if !void(by, &chars, at, end) {
            let name = text_range(&chars, at, end);
            let ghost shown = name@;
            r.push(name);
            proof {
                assert(r.deep_view() =~= before.push(shown));
                let later = names_in(by, chars@.skip(next as int));
                assert(before + (seq![shown] + later) =~= before.push(shown) + later);
            }
        }
        at = next;
    }
    assert(r.deep_view() + Seq::<Text>::empty() =~= r.deep_view());
    r
}

/// Whether one of the names steps up.
pub fn has_step_up(names: &Vec<String>) -> (r: bool)
    ensures
        r == names.deep_view().contains(step_up()),
{
    let ghost views = names.deep_view();
    proof {
        reveal_strlit("..");
        assert(".."@ =~= step_up());
    }
    let mut i: usize = 0;
    while i < names.len()
        invariant
            i <= names@.len(),
            views == names.deep_view(),
            ".."@ == step_up(),
            forall|k: int| #![trigger views[k]] 0 <= k < i ==> views[k] != step_up(),
        decreases names@.len() - i,
    {
        assert(views[i as int] == names@[i as int]@);
        if same(names[i].as_str(), "..") {
            assert(views.contains(views[i as int]));
            return true;
        }
        i += 1;
    }
    false
}

/// Whether two paths start at the same place.
pub fn start_alike(style: PathStyle, a: &str, b: &str) -> (r: bool)
    ensures
        r == (start(style, a@) == start(style, b@)),
{
    let first = chars_of(a);
    let second = chars_of(b);
    same_start(&lead_of(style, &first).start, &lead_of(style, &second).start)
}

/// Whether a path only leads down.
pub fn only_down(style: PathStyle, path: &str) -> (r: bool)
    ensures
        r == leads_down(style, path@),
{
    let chars = chars_of(path);
    let first = lead_of(style, &chars).start;
    first.prefix.kind == PrefixKind::Absent && !first.rooted && !first.here && !has_step_up(
        &names_of(style, path),
    )
}

// ---------------------------------------------------------------------------
// Paths from paths
// ---------------------------------------------------------------------------

/// A path that leads down, seen from a base.
pub fn join_path(style: PathStyle, base: &str, path: &str) -> (r: String)
    ensures
        r@ == joined_to(style, base@, path@),
{
    let chars = chars_of(base);
    let n: usize = chars.len();
    let lead = lead_of(style, &chars);
    let between = match style {
        PathStyle::Unix => "/",
        PathStyle::Windows => "\\",
    };
    proof {
        reveal_strlit("/");
        reveal_strlit("\\");
        assert(between@ =~= separator(style));
        assert(lead.by == Separators::Backslash <==> is_verbatim(style, base@));
    }
    if lead.by == Separators::Backslash && chars_of(path).len() > 0 {
        let mut r = text_range(&chars, 0, lead.prefix);
        assert(r@ =~= base@.take(lead.prefix as int));
        let mut all = names_of(style, base);
        let ghost head = all.deep_view();
        let mut more = names_of(style, path);
        let ghost tail = more.deep_view();
        all.append(&mut more);
        assert(all.deep_view() =~= head + tail);
        r.append(between);
        r.append(joined(&all, between).as_str());
        return r;
    }
    let bare: bool = lead.start.prefix.kind == PrefixKind::Disk && n == 2;
    let mut r = base.to_owned();
    if n > 0 && !bare && !ends_apart(style, &chars) {
        r.append(between);
    }
    r.append(path);
    r
}

/// Whether a text ends with a separator.
fn ends_apart(style: PathStyle, chars: &Vec<char>) -> (r: bool)
    requires
        chars@.len() > 0,
    ensures
        r == is_separator(usual(style), chars@.last()),
{
    let last = chars[chars.len() - 1];
    match style {
        PathStyle::Unix => last == '/',
        PathStyle::Windows => last == '/' || last == '\\',
    }
}

/// Where the first name from `from` on starts.
fn skip_voids(by: Separators, chars: &Vec<char>, from: usize) -> (r: usize)
    requires
        from <= chars@.len(),
    ensures
        from <= r <= chars@.len(),
        chars@.skip(r as int) == from_name(by, chars@.skip(from as int)),
{
    let mut at: usize = from;
    while at < chars.len()
        invariant
            from <= at <= chars@.len(),
            from_name(by, chars@.skip(from as int)) == from_name(by, chars@.skip(at as int)),
        decreases chars@.len() - at,
    {
        proof {
            lemma_first_len(by, chars@.skip(at as int));
        }
        let end: usize = part_end(by, chars, at);
        if !void(by, chars, at, end) {
            return at;
        }
        at = part_after(by, chars, Ghost(at as int), end);
    }
    at
}

/// What is left of a path after its start and its first `k` names.
pub fn path_after(style: PathStyle, path: &str, k: usize) -> (r: String)
    ensures
        r@ == rest_after(style, path@, k as nat),
{
    let chars = chars_of(path);
    let lead = lead_of(style, &chars);
    let by = lead.by;
    let mut at: usize = lead.prefix;
    if k > 0 || lead.start.rooted || lead.start.here {
        at = skip_voids(by, &chars, lead.len);
        let ghost body = path@.skip(lead.len as int);
        let mut left: usize = k;
        while left > 0
            invariant
                at <= chars@.len(),
                left <= k,
                from_name_at(by, body, k as nat) == (if left == 0 {
                    chars@.skip(at as int)
                } else {
                    from_name_at(by, after_part(by, chars@.skip(at as int)), (left - 1) as nat)
                }),
            decreases left,
        {
            let end: usize = part_end(by, &chars, at);
            let next: usize = part_after(by, &chars, Ghost(at as int), end);
            at = skip_voids(by, &chars, next);
            left -= 1;
        }
    }
    let rest = text_range(&chars, at, chars.len());
    let tail = chars_of(rest.as_str());
    assert(tail@ =~= path@.skip(at as int));
    let end: usize = voids_cut(by, &tail, tail.len(), 0);
    assert(tail@.take(tail@.len() as int) =~= tail@);
    let r = text_range(&tail, 0, end);
    assert(r@ =~= tail@.take(end as int));
    r
}

} // verus!
