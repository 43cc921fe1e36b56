//! What is read out of the output of Git, and what a refusal says.

use vstd::prelude::*;

use super::error::{failure, failure_at, HistoryError, HistoryErrorView};
use super::git::{
    cut, listing_fields, rename_records, revision_line, tree_record_fields, true_line,
    unavailable, RenameKind, RenameView, RevisionView,
};
use super::range::{after_dots, dots_at, is_range, lemma_to_side};
use crate::text::{decimal, integer, is_white, lemma_pieces_some, lossy, pieces, words, Text};
use crate::text_laws::{
    lemma_decimal_is_read_back, lemma_non_empty_adds, lemma_non_empty_of_one, lemma_one_piece,
    lemma_one_word, lemma_pieces_part, lemma_signs_are_read, lemma_words_part,
};

verus! {

// ---------------------------------------------------------------------------
// Commits
// ---------------------------------------------------------------------------

/// A number as it is written: its digits, behind a minus where it is negative.
pub open spec fn written(n: int) -> Text {
    if n < 0 {
        seq!['-'] + decimal((-n) as nat)
    } else {
        decimal(n as nat)
    }
}

proof fn lemma_written(n: int)
    ensures
        integer(written(n)) == Some(n),
        !written(n).contains('\0'),
{
    let digits = decimal(if n < 0 {
        (-n) as nat
    } else {
        n as nat
    });
    if n < 0 {
        lemma_signs_are_read((-n) as nat);
        lemma_decimal_is_read_back((-n) as nat);
    } else {
        lemma_decimal_is_read_back(n as nat);
    }
    assert forall|i: int| 0 <= i < written(n).len() implies #[trigger] written(n)[i] != '\0' by {
        if n < 0 {
            if i > 0 {
                assert(written(n)[i] == digits[i - 1]);
            }
        } else {
            assert(written(n)[i] == digits[i]);
        }
    }
}

proof fn lemma_three_pieces(a: Text, b: Text, c: Text)
    requires
        !a.contains('\0'),
        !b.contains('\0'),
        !c.contains('\0'),
    ensures
        pieces(a.push('\0') + b.push('\0') + c, '\0') == seq![a, b, c],
{
    assert(a.push('\0') + b.push('\0') + c =~= a.push('\0') + (b.push('\0') + c));
    lemma_pieces_part(a, '\0', b.push('\0') + c);
    lemma_pieces_part(b, '\0', c);
    lemma_one_piece(a, '\0');
    lemma_one_piece(b, '\0');
    lemma_one_piece(c, '\0');
    assert(seq![a] + (seq![b] + seq![c]) =~= seq![a, b, c]);
}

/// A commit is read as it is listed: its name, its time and its parents, with a
/// NUL between them.
pub proof fn lemma_commit_is_read(sha: Text, seconds: int, parents: Text)
    requires
        sha.len() > 0,
        !sha.contains('\0'),
        !parents.contains('\0'),
    ensures
        i64::MIN <= seconds <= i64::MAX ==> revision_line(
            sha.push('\0') + written(seconds).push('\0') + parents,
        ) == Some(RevisionView { sha, timestamp: seconds, parents: words(parents) }),
        !(i64::MIN <= seconds <= i64::MAX) ==> revision_line(
            sha.push('\0') + written(seconds).push('\0') + parents,
        ) is None,
{
    lemma_written(seconds);
    lemma_three_pieces(sha, written(seconds), parents);
}

/// A commit without a name, or whose time is no number, or of fewer or more
/// fields, is not read.
pub proof fn lemma_bad_commit_is_not_read(a: Text, b: Text, c: Text, rest: Text)
    requires
        !a.contains('\0'),
        !b.contains('\0'),
        !c.contains('\0'),
    ensures
        revision_line(a) is None,
        revision_line(a.push('\0') + b) is None,
        a.len() == 0 || integer(b) is None ==> revision_line(a.push('\0') + b.push('\0') + c) is None,
        revision_line((a.push('\0') + b.push('\0') + c).push('\0') + rest) is None,
{
    lemma_one_piece(a, '\0');
    lemma_one_piece(b, '\0');
    lemma_pieces_part(a, '\0', b);
    lemma_three_pieces(a, b, c);
    lemma_pieces_part(a.push('\0') + b.push('\0') + c, '\0', rest);
    lemma_pieces_some(rest, '\0');
    assert((seq![a] + seq![b]).len() == 2);
}

// ---------------------------------------------------------------------------
// Renames
// ---------------------------------------------------------------------------

/// A rename is read from its record, and the rest after it. What is short of a
/// path is malformed.
pub proof fn lemma_rename_is_read(status: Text, old: Text, new: Text, rest: Seq<Text>)
    requires
        status.len() > 0,
        status[0] == 'R',
    ensures
        rename_records(rest) matches Some(more) ==> rename_records(seq![status, old, new] + rest)
            == Some(seq![RenameView { old, new, kind: RenameKind::ExactFile }] + more),
        rename_records(rest) is None ==> rename_records(seq![status, old, new] + rest) is None,
        rename_records(seq![status]) is None,
        rename_records(seq![status, old]) is None,
{
    let fields = seq![status, old, new] + rest;
    assert(fields[0] == status && fields[1] == old && fields[2] == new);
    assert(fields.skip(3) =~= rest);
}

/// A copy or another change is no rename: its record is passed over.
pub proof fn lemma_other_changes_are_passed_over(
    status: Text,
    old: Text,
    new: Text,
    rest: Seq<Text>,
)
    requires
        status.len() == 0 || status[0] != 'R',
    ensures
        status.len() > 0 && status[0] == 'C' ==> rename_records(seq![status, old, new] + rest)
            == rename_records(rest),
        status.len() == 0 || status[0] != 'C' ==> rename_records(seq![status, old] + rest)
            == rename_records(rest),
        rename_records(Seq::empty()) == Some(Seq::<RenameView>::empty()),
{
    let three = seq![status, old, new] + rest;
    let two = seq![status, old] + rest;
    assert(three[0] == status && two[0] == status);
    assert(three.skip(3) =~= rest);
    assert(two.skip(2) =~= rest);
    if rest.len() == 0 {
        assert(rest =~= Seq::<Text>::empty());
    }
}

/// The fields of a listing are what stands between its NULs; empty ones are
/// none.
pub proof fn lemma_fields_are_listed(field: Seq<u8>, rest: Seq<u8>)
    requires
        !field.contains(0u8),
    ensures
        field.len() > 0 ==> listing_fields(field.push(0u8) + rest) == seq![lossy(field)]
            + listing_fields(rest),
        field.len() == 0 ==> listing_fields(field.push(0u8) + rest) == listing_fields(rest),
        field.len() > 0 ==> listing_fields(field) == seq![lossy(field)],
        listing_fields(Seq::empty()) == Seq::<Text>::empty(),
{
    lemma_one_piece(field, 0u8);
    lemma_pieces_part(field, 0u8, rest);
    lemma_non_empty_adds(seq![field], pieces(rest, 0u8));
    lemma_non_empty_of_one(field);
    let all = field.push(0u8) + rest;
    if field.len() > 0 {
        assert(listing_fields(all) =~= seq![lossy(field)] + listing_fields(rest));
        assert(listing_fields(field) =~= seq![lossy(field)]);
    } else {
        assert(listing_fields(all) =~= listing_fields(rest));
    }
    let none = Seq::<u8>::empty();
    assert(!none.contains(0u8));
    lemma_one_piece(none, 0u8);
    lemma_non_empty_of_one(none);
    assert(listing_fields(none) =~= Seq::<Text>::empty());
}

// ---------------------------------------------------------------------------
// Trees
// ---------------------------------------------------------------------------

/// A text is cut at its first separator.
pub proof fn lemma_text_is_cut_once(a: Text, separator: char, b: Text)
    requires
        !a.contains(separator),
    ensures
        cut(a.push(separator) + b, separator) == Some((a, b)),
        cut(a, separator) is None,
{
    let s = a.push(separator) + b;
    lemma_one_piece(a, separator);
    lemma_pieces_part(a, separator, b);
    assert(pieces(s, separator)[0] == a);
    assert(s.skip(a.len() as int + 1) =~= b);
    lemma_pieces_some(b, separator);
}

/// The text is one word: it says something and has no white space.
pub open spec fn is_word(s: Text) -> bool {
    s.len() > 0 && forall|i: int| #![trigger s[i]] 0 <= i < s.len() ==> !is_white(s[i])
}

/// A file of a tree is read as it is listed: its mode, its type and its blob,
/// and after a tab its path, whatever that holds.
pub proof fn lemma_tree_record_is_read(mode: Text, kind: Text, blob: Text, path: Text)
    requires
        is_word(mode),
        is_word(kind),
        is_word(blob),
    ensures
        tree_record_fields(
            (mode.push(' ') + (kind.push(' ') + blob)).push('\t') + path,
        ) == Some((mode, blob, path)),
{
    let meta = mode.push(' ') + (kind.push(' ') + blob);
    lemma_words_part(mode, ' ', kind.push(' ') + blob);
    lemma_words_part(kind, ' ', blob);
    lemma_one_word(mode);
    lemma_one_word(kind);
    lemma_one_word(blob);
    assert(seq![mode] + (seq![kind] + seq![blob]) =~= seq![mode, kind, blob]);
    assert(!meta.contains('\t')) by {
        assert(is_white('\t'));
        assert forall|i: int| 0 <= i < meta.len() implies meta[i] != '\t' by {
            let n = mode.len() as int;
            let m = kind.len() as int;
            if i < n {
                assert(meta[i] == mode[i]);
            } else if i == n {
                assert(meta[i] == ' ');
            } else if i < n + 1 + m {
                assert(meta[i] == kind[i - n - 1]);
            } else if i == n + 1 + m {
                assert(meta[i] == ' ');
            } else {
                assert(meta[i] == blob[i - n - m - 2]);
            }
        }
    }
    lemma_text_is_cut_once(meta, '\t', path);
}

/// A record without a tab, or with fewer words before it, is malformed.
pub proof fn lemma_bad_tree_record_is_not_read(a: Text, b: Text, path: Text)
    requires
        is_word(a),
        is_word(b),
    ensures
        tree_record_fields(a) is None,
        tree_record_fields(a.push('\t') + path) is None,
        tree_record_fields((a.push(' ') + b).push('\t') + path) is None,
{
    let meta = a.push(' ') + b;
    assert(is_white('\t') && is_white(' '));
    lemma_one_word(a);
    lemma_one_word(b);
    lemma_words_part(a, ' ', b);
    assert(!a.contains('\t'));
    assert(!meta.contains('\t')) by {
        assert forall|i: int| 0 <= i < meta.len() implies meta[i] != '\t' by {
            if i < a.len() {
                assert(meta[i] == a[i]);
            } else if i > a.len() {
                assert(meta[i] == b[i - a.len() - 1]);
            }
        }
    }
    lemma_text_is_cut_once(a, '\t', path);
    lemma_text_is_cut_once(meta, '\t', path);
    assert((seq![a] + seq![b]).len() == 2);
}

// ---------------------------------------------------------------------------
// Ranges
// ---------------------------------------------------------------------------

/// Two sides without dots around two dots are a range, and its right side is
/// what follows them.
pub proof fn lemma_range_has_two_sides(from: Text, to: Text)
    requires
        from.len() > 0,
        to.len() > 0,
        !from.contains('.'),
        !to.contains('.'),
    ensures
        is_range(from + seq!['.', '.'] + to, from.len() as int),
        (from + seq!['.', '.'] + to).take(from.len() as int) == from,
        (from + seq!['.', '.'] + to).skip(from.len() as int + 2) == to,
        after_dots(from + seq!['.', '.'] + to) == to,
{
    let s = from + seq!['.', '.'] + to;
    let n = from.len() as int;
    assert(s[n] == '.' && s[n + 1] == '.');
    assert forall|other: int| #[trigger] dots_at(s, other) implies other == n by {
        if other < n {
            assert(s[other] == from[other]);
            assert(from.contains(from[other]));
        } else if other > n {
            assert(s[other + 1] == to[other + 1 - n - 2]);
            assert(to.contains(to[other + 1 - n - 2]));
        }
    }
    assert(s.take(n) =~= from);
    assert(s.skip(n + 2) =~= to);
    lemma_to_side(s, n);
}

/// What has no two dots, three in a row, nothing on a side, or two dots twice,
/// is no range.
pub proof fn lemma_other_texts_are_no_range(a: Text, b: Text, c: Text, at: int)
    ensures
        !a.contains('.') ==> !is_range(a, at),
        !is_range(a + seq!['.', '.', '.'] + b, at),
        !a.contains('.') ==> !is_range(seq!['.', '.'] + a, at) && !is_range(
            a + seq!['.', '.'],
            at,
        ),
        b.len() > 0 ==> !is_range(a + seq!['.', '.'] + b + seq!['.', '.'] + c, at),
{
    if !a.contains('.') && dots_at(a, at) {
        assert(a.contains(a[at]));
    }
    let n = a.len() as int;
    let three = a + seq!['.', '.', '.'] + b;
    assert(dots_at(three, n));
    assert(dots_at(three, n + 1));
    if !a.contains('.') {
        let left = seq!['.', '.'] + a;
        assert(dots_at(left, 0));
        let right = a + seq!['.', '.'];
        assert(dots_at(right, n));
    }
    let twice = a + seq!['.', '.'] + b + seq!['.', '.'] + c;
    assert(dots_at(twice, n));
    assert(dots_at(twice, n + 2 + b.len()));
}

// ---------------------------------------------------------------------------
// Refusals
// ---------------------------------------------------------------------------

/// A refusal names the range and the cause, and the revision where it is of one.
pub proof fn lemma_refusal_is_worded(range: Text, revision: Text, cause: Text, reason: Text)
    ensures
        HistoryError::words(failure(range, cause)) == "history "@ + range + ": "@ + cause,
        HistoryError::words(failure_at(range, revision, cause)) == "history "@ + range + ": "@ + (
        "revision "@ + revision + ": "@ + cause),
        HistoryError::words(HistoryErrorView { range: None, cause }) == cause,
        unavailable(reason) == "Git is unavailable: "@ + reason,
{
}

/// Git says yes with the line `true`.
pub proof fn lemma_yes_is_a_line()
    ensures
        true_line() == seq!['t' as u8, 'r' as u8, 'u' as u8, 'e' as u8, '\n' as u8],
{
    assert(true_line() =~= seq!['t' as u8, 'r' as u8, 'u' as u8, 'e' as u8, '\n' as u8]);
}

} // verus!
