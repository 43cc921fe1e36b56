//! What holds of texts that are split, joined, trimmed, counted and ordered.

use vstd::prelude::*;

use crate::order::{list_order, number_order, text_order, Order};
use crate::text::{
    all_digits, decimal, digit, digits_value, integer, is_digit, is_white, join,
    lemma_pieces_some, lines, non_empty, padded, pieces, replaced, trim, trim_end, trim_start,
    white_pieces, without_return, words, zeros, Text,
};

verus! {

// ---------------------------------------------------------------------------
// Splitting and joining
// ---------------------------------------------------------------------------

/// No piece holds the separator.
pub proof fn lemma_pieces_hold_no_separator<T>(s: Seq<T>, separator: T, i: int)
    requires
        0 <= i < pieces(s, separator).len(),
    ensures
        !pieces(s, separator)[i].contains(separator),
    decreases s.len(),
{
    lemma_pieces_some(s, separator);
    if s.len() > 0 {
        let head = pieces(s.drop_last(), separator);
        lemma_pieces_some(s.drop_last(), separator);
        if s.last() == separator {
            if i < head.len() {
                lemma_pieces_hold_no_separator(s.drop_last(), separator, i);
            }
        } else {
            lemma_pieces_hold_no_separator(s.drop_last(), separator, if i < head.len() {
                i
            } else {
                head.len() - 1
            });
            if i == head.len() - 1 {
                let last = head.last();
                assert forall|k: int| 0 <= k < last.push(s.last()).len() implies last.push(
                    s.last(),
                )[k] != separator by {
                    if k < last.len() {
                        assert(last.contains(last[k]));
                    }
                }
            }
        }
    }
}

/// A text without the separator is one piece.
pub proof fn lemma_one_piece<T>(s: Seq<T>, separator: T)
    requires
        !s.contains(separator),
    ensures
        pieces(s, separator) == seq![s],
    decreases s.len(),
{
    if s.len() > 0 {
        let head = s.drop_last();
        assert forall|k: int| 0 <= k < head.len() implies head[k] != separator by {
            assert(s.contains(s[k]));
        }
        assert(s.contains(s.last())) by {
            assert(s[s.len() - 1] == s.last());
        }
        lemma_one_piece(head, separator);
        assert(head.push(s.last()) =~= s);
        assert(pieces(s, separator) =~= seq![s]);
    } else {
        assert(s =~= Seq::<T>::empty());
        assert(pieces(s, separator) =~= seq![s]);
    }
}

/// A separator parts the pieces before it from those behind it.
pub proof fn lemma_pieces_part<T>(a: Seq<T>, separator: T, b: Seq<T>)
    ensures
        pieces(a.push(separator) + b, separator) == pieces(a, separator) + pieces(b, separator),
    decreases b.len(),
{
    let s = a.push(separator) + b;
    if b.len() == 0 {
        assert(s =~= a.push(separator));
        assert(s.drop_last() =~= a);
        assert(b =~= Seq::<T>::empty());
        assert(pieces(s, separator) =~= pieces(a, separator) + pieces(b, separator));
    } else {
        let shorter = b.drop_last();
        lemma_pieces_part(a, separator, shorter);
        lemma_pieces_some(shorter, separator);
        assert(s.drop_last() =~= a.push(separator) + shorter);
        assert(s.last() == b.last());
        assert(pieces(s, separator) =~= pieces(a, separator) + pieces(b, separator));
    }
}

/// Joined texts are split again into themselves, unless one holds the
/// separator.
pub proof fn lemma_joined_texts_split_back(parts: Seq<Text>, separator: char)
    requires
        parts.len() > 0,
        forall|i: int| #![trigger parts[i]] 0 <= i < parts.len() ==> !parts[i].contains(separator),
    ensures
        pieces(join(parts, seq![separator]), separator) == parts,
    decreases parts.len(),
{
    if parts.len() == 1 {
        lemma_one_piece(parts[0], separator);
        assert(seq![parts[0]] =~= parts);
    } else {
        let head = parts.drop_last();
        assert forall|i: int| #![trigger head[i]] 0 <= i < head.len() implies !head[i].contains(
            separator,
        ) by {
            assert(head[i] == parts[i]);
        }
        lemma_joined_texts_split_back(head, separator);
        let before = join(head, seq![separator]);
        lemma_pieces_part(before, separator, parts.last());
        assert(parts[parts.len() - 1] == parts.last());
        lemma_one_piece(parts.last(), separator);
        assert(join(parts, seq![separator]) =~= before.push(separator) + parts.last());
        assert(head + seq![parts.last()] =~= parts);
    }
}

/// The pieces that are not empty, of two lists, are those of the first and then
/// those of the second.
pub proof fn lemma_non_empty_adds<T>(a: Seq<Seq<T>>, b: Seq<Seq<T>>)
    ensures
        non_empty(a + b) == non_empty(a) + non_empty(b),
    decreases b.len(),
{
    if b.len() == 0 {
        assert(a + b =~= a);
        assert(non_empty(a) + non_empty(b) =~= non_empty(a));
    } else {
        assert((a + b).drop_last() =~= a + b.drop_last());
        lemma_non_empty_adds(a, b.drop_last());
        assert(non_empty(a + b) =~= non_empty(a) + non_empty(b));
    }
}

/// A piece that is not empty is kept, an empty one is not.
pub proof fn lemma_non_empty_of_one<T>(part: Seq<T>)
    ensures
        part.len() > 0 ==> non_empty(seq![part]) == seq![part],
        part.len() == 0 ==> non_empty(seq![part]) == Seq::<Seq<T>>::empty(),
{
    assert(seq![part].drop_last() =~= Seq::<Seq<T>>::empty());
    assert(non_empty(Seq::<Seq<T>>::empty()) =~= Seq::<Seq<T>>::empty());
    assert(Seq::<Seq<T>>::empty().push(part) =~= seq![part]);
}

// ---------------------------------------------------------------------------
// Words
// ---------------------------------------------------------------------------

proof fn lemma_white_pieces_some(s: Text)
    ensures
        white_pieces(s).len() > 0,
    decreases s.len(),
{
    if s.len() > 0 {
        lemma_white_pieces_some(s.drop_last());
    }
}

proof fn lemma_white_pieces_part(a: Text, space: char, b: Text)
    requires
        is_white(space),
    ensures
        white_pieces(a.push(space) + b) == white_pieces(a) + white_pieces(b),
    decreases b.len(),
{
    let s = a.push(space) + b;
    if b.len() == 0 {
        assert(s =~= a.push(space));
        assert(s.drop_last() =~= a);
        assert(b =~= Seq::<char>::empty());
        assert(white_pieces(s) =~= white_pieces(a) + white_pieces(b));
    } else {
        let shorter = b.drop_last();
        lemma_white_pieces_part(a, space, shorter);
        lemma_white_pieces_some(shorter);
        assert(s.drop_last() =~= a.push(space) + shorter);
        assert(s.last() == b.last());
        assert(white_pieces(s) =~= white_pieces(a) + white_pieces(b));
    }
}

/// White space parts the words before it from those behind it.
pub proof fn lemma_words_part(a: Text, space: char, b: Text)
    requires
        is_white(space),
    ensures
        words(a.push(space) + b) == words(a) + words(b),
{
    lemma_white_pieces_part(a, space, b);
    lemma_non_empty_adds(white_pieces(a), white_pieces(b));
}

/// A text without white space is one word, and no word at all if it is empty.
pub proof fn lemma_one_word(s: Text)
    requires
        forall|i: int| #![trigger s[i]] 0 <= i < s.len() ==> !is_white(s[i]),
    ensures
        s.len() > 0 ==> words(s) == seq![s],
        s.len() == 0 ==> words(s) == Seq::<Text>::empty(),
{
    lemma_one_white_piece(s);
    lemma_non_empty_of_one(s);
}

proof fn lemma_one_white_piece(s: Text)
    requires
        forall|i: int| #![trigger s[i]] 0 <= i < s.len() ==> !is_white(s[i]),
    ensures
        white_pieces(s) == seq![s],
    decreases s.len(),
{
    if s.len() > 0 {
        let head = s.drop_last();
        assert forall|i: int| #![trigger head[i]] 0 <= i < head.len() implies !is_white(head[i]) by {
            assert(head[i] == s[i]);
        }
        lemma_one_white_piece(head);
        assert(s[s.len() - 1] == s.last());
        assert(head.push(s.last()) =~= s);
        assert(white_pieces(s) =~= seq![s]);
    } else {
        assert(s =~= Seq::<char>::empty());
        assert(white_pieces(s) =~= seq![s]);
    }
}

/// Of the characters of plain text, exactly the blank and the controls from tab
/// to return are white.
pub proof fn lemma_plain_white(c: char)
    requires
        c as u32 <= 0x7f,
    ensures
        is_white(c) <==> c == ' ' || c == '\t' || c == '\n' || c == '\r' || c as u32 == 0x0b
            || c as u32 == 0x0c,
{
}

// ---------------------------------------------------------------------------
// Trimming
// ---------------------------------------------------------------------------

/// What is white around a text is cut off, and nothing else.
pub proof fn lemma_trimmed_is_the_middle(before: Text, s: Text, after: Text)
    requires
        forall|i: int| #![trigger before[i]] 0 <= i < before.len() ==> is_white(before[i]),
        forall|i: int| #![trigger after[i]] 0 <= i < after.len() ==> is_white(after[i]),
        s.len() > 0 ==> !is_white(s[0]) && !is_white(s.last()),
    ensures
        trim(before + s + after) == s,
{
    lemma_trim_start_cuts(before, s + after);
    assert(before + s + after =~= before + (s + after));
    if s.len() > 0 {
        assert((s + after)[0] == s[0]);
        assert(trim_start(s + after) == s + after);
    } else {
        assert(s + after =~= after);
        assert(after + Seq::<char>::empty() =~= after);
        lemma_trim_start_cuts(after, Seq::empty());
        assert(trim_start(after) =~= Seq::<char>::empty());
        assert(s =~= Seq::<char>::empty());
        assert(trim_end(Seq::empty()) == Seq::<char>::empty());
    }
    if s.len() > 0 {
        lemma_trim_end_cuts(s, after);
        assert(trim_end(s) == s);
    }
}

proof fn lemma_trim_start_cuts(before: Text, s: Text)
    requires
        forall|i: int| #![trigger before[i]] 0 <= i < before.len() ==> is_white(before[i]),
    ensures
        trim_start(before + s) == trim_start(s),
    decreases before.len(),
{
    if before.len() > 0 {
        let rest = before.drop_first();
        assert forall|i: int| #![trigger rest[i]] 0 <= i < rest.len() implies is_white(rest[i]) by {
            assert(rest[i] == before[i + 1]);
        }
        assert((before + s)[0] == before[0]);
        assert((before + s).drop_first() =~= rest + s);
        lemma_trim_start_cuts(rest, s);
    } else {
        assert(before + s =~= s);
    }
}

proof fn lemma_trim_end_cuts(s: Text, after: Text)
    requires
        forall|i: int| #![trigger after[i]] 0 <= i < after.len() ==> is_white(after[i]),
    ensures
        trim_end(s + after) == trim_end(s),
    decreases after.len(),
{
    if after.len() > 0 {
        let rest = after.drop_last();
        assert forall|i: int| #![trigger rest[i]] 0 <= i < rest.len() implies is_white(rest[i]) by {
            assert(rest[i] == after[i]);
        }
        assert(after[after.len() - 1] == after.last());
        assert((s + after).last() == after.last());
        assert((s + after).drop_last() =~= s + rest);
        lemma_trim_end_cuts(s, rest);
    } else {
        assert(s + after =~= s);
    }
}

// ---------------------------------------------------------------------------
// Lines
// ---------------------------------------------------------------------------

/// Texts that are written one to a line are read back, whether the last line
/// ends or not, and whether a return stands before each end or not.
pub proof fn lemma_lines_are_read_back(listed: Seq<Text>, last: Text)
    requires
        forall|i: int|
            #![trigger listed[i]]
            0 <= i < listed.len() ==> !listed[i].contains('\n'),
        !last.contains('\n'),
    ensures
        last.len() > 0 ==> lines(join(listed.push(last), seq!['\n'])) == listed.map_values(
            |line: Text| without_return(line),
        ).push(last),
        last.len() == 0 ==> lines(join(listed.push(last), seq!['\n'])) == listed.map_values(
            |line: Text| without_return(line),
        ),
{
    let all = listed.push(last);
    assert forall|i: int| #![trigger all[i]] 0 <= i < all.len() implies !all[i].contains('\n') by {
        if i < listed.len() {
            assert(all[i] == listed[i]);
        }
    }
    lemma_joined_texts_split_back(all, '\n');
    assert(all.drop_last() =~= listed);
}

/// A return at the end of a line is no part of it, and nothing else is cut.
pub proof fn lemma_return_is_cut(line: Text)
    ensures
        without_return(line.push('\r')) == line,
        line.len() == 0 || line.last() != '\r' ==> without_return(line) == line,
{
    assert(line.push('\r').drop_last() =~= line);
}

// ---------------------------------------------------------------------------
// Numbers
// ---------------------------------------------------------------------------

/// The digits of a number say that number, with no zero before them.
pub proof fn lemma_decimal_is_read_back(n: nat)
    ensures
        decimal(n).len() > 0,
        all_digits(decimal(n)),
        digits_value(decimal(n)) == n,
        n > 0 ==> decimal(n)[0] != '0',
        integer(decimal(n)) == Some(n as int),
    decreases n,
{
    let text = decimal(n);
    if n < 10 {
        let c = digit(n);
        assert(c as nat == n + 0x30);
        assert(text.drop_last() =~= Seq::<char>::empty());
        assert(digits_value(Seq::<char>::empty()) == 0);
        assert(text.last() == c);
    } else {
        lemma_decimal_is_read_back(n / 10);
        let head = decimal(n / 10);
        let c = digit(n % 10);
        assert(c as nat == n % 10 + 0x30);
        assert(text.drop_last() =~= head);
        assert(text.last() == c);
        assert forall|i: int| 0 <= i < text.len() implies is_digit(#[trigger] text[i]) by {
            if i < head.len() {
                assert(text[i] == head[i]);
            }
        }
        assert(text[0] == head[0]);
    }
    assert(is_digit(text[0]));
}

/// A sign before the digits of a number is read with it.
pub proof fn lemma_signs_are_read(n: nat)
    ensures
        integer(seq!['-'] + decimal(n)) == Some(-(n as int)),
        integer(seq!['+'] + decimal(n)) == Some(n as int),
{
    lemma_decimal_is_read_back(n);
    assert((seq!['-'] + decimal(n)).drop_first() =~= decimal(n));
    assert((seq!['+'] + decimal(n)).drop_first() =~= decimal(n));
}

/// What holds anything but digits after its sign is no number, nor is nothing.
pub proof fn lemma_only_digits_are_numbers(s: Text, i: int)
    requires
        s.len() == 0 || 0 < i < s.len() && !('0' <= s[i] <= '9'),
    ensures
        integer(s) is None,
{
    if s.len() > 0 {
        let rest = s.drop_first();
        assert(rest[i - 1] == s[i]);
        assert(!is_digit(s[i]));
    }
}

/// Padding adds zeros in front up to the width, and the number stays.
pub proof fn lemma_padding_keeps_the_number(n: nat, width: nat)
    ensures
        padded(n, width).len() >= width,
        padded(n, width).len() == width || padded(n, width) == decimal(n),
        digits_value(padded(n, width)) == n,
{
    lemma_decimal_is_read_back(n);
    let text = decimal(n);
    if text.len() < width {
        lemma_zeros_add_nothing((width - text.len()) as nat, text);
    }
}

proof fn lemma_zeros_add_nothing(k: nat, s: Text)
    ensures
        digits_value(zeros(k) + s) == digits_value(s),
    decreases s.len(), k,
{
    if s.len() == 0 {
        assert(zeros(k) + s =~= zeros(k));
        if k > 0 {
            assert(zeros(k).drop_last() =~= zeros((k - 1) as nat));
            assert(zeros((k - 1) as nat) + s =~= zeros((k - 1) as nat));
            lemma_zeros_add_nothing((k - 1) as nat, s);
        } else {
            assert(zeros(k) =~= s);
        }
    } else {
        assert((zeros(k) + s).drop_last() =~= zeros(k) + s.drop_last());
        lemma_zeros_add_nothing(k, s.drop_last());
    }
}

// ---------------------------------------------------------------------------
// Characters
// ---------------------------------------------------------------------------

/// Replacing touches the one character alone.
pub proof fn lemma_replaced_at(s: Text, from: char, to: char, i: int)
    requires
        0 <= i < s.len(),
    ensures
        replaced(s, from, to).len() == s.len(),
        s[i] == from ==> replaced(s, from, to)[i] == to,
        s[i] != from ==> replaced(s, from, to)[i] == s[i],
{
}

// ---------------------------------------------------------------------------
// Orders
// ---------------------------------------------------------------------------

/// Smaller numbers come first.
pub proof fn lemma_numbers_ascend(a: int, b: int)
    ensures
        number_order(a, b) == Order::Before <==> a < b,
        number_order(a, b) == Order::After <==> a > b,
{
}

/// Of two texts, the one with the smaller character where they first differ
/// comes first.
pub proof fn lemma_texts_ascend(common: Text, a: char, b: char, rest: Text, other: Text)
    requires
        a < b,
    ensures
        text_order(common.push(a) + rest, common.push(b) + other) == Order::Before,
        text_order(common.push(b) + other, common.push(a) + rest) == Order::After,
    decreases common.len(),
{
    let x = common.push(a) + rest;
    let y = common.push(b) + other;
    if common.len() > 0 {
        let tail = common.drop_first();
        assert(x.drop_first() =~= tail.push(a) + rest);
        assert(y.drop_first() =~= tail.push(b) + other);
        lemma_texts_ascend(tail, a, b, rest, other);
    }
}

/// A text stands where it stands.
pub proof fn lemma_same_text(s: Text)
    ensures
        text_order(s, s) == Order::Same,
    decreases s.len(),
{
    if s.len() > 0 {
        lemma_same_text(s.drop_first());
    }
}

/// A text comes before every longer one that begins with it.
pub proof fn lemma_shorter_texts_come_first(s: Text, more: Text)
    requires
        more.len() > 0,
    ensures
        text_order(s, s + more) == Order::Before,
        text_order(s + more, s) == Order::After,
        text_order(s, s) == Order::Same,
    decreases s.len(),
{
    if s.len() > 0 {
        assert((s + more).drop_first() =~= s.drop_first() + more);
        lemma_shorter_texts_come_first(s.drop_first(), more);
    }
}

/// Of two lists, the one with the smaller text where they first differ comes
/// first, and a list comes before every longer one that begins with it.
pub proof fn lemma_lists_ascend(
    common: Seq<Text>,
    a: Text,
    b: Text,
    rest: Seq<Text>,
    other: Seq<Text>,
)
    requires
        text_order(a, b) == Order::Before,
    ensures
        list_order(common.push(a) + rest, common.push(b) + other) == Order::Before,
        list_order(common, common.push(a) + rest) == Order::Before,
    decreases common.len(),
{
    let x = common.push(a) + rest;
    let y = common.push(b) + other;
    if common.len() > 0 {
        let tail = common.drop_first();
        assert(x.drop_first() =~= tail.push(a) + rest);
        assert(y.drop_first() =~= tail.push(b) + other);
        assert(x[0] == common[0] && y[0] == common[0]);
        lemma_lists_ascend(tail, a, b, rest, other);
        lemma_shorter_texts_come_first(common[0], seq!['a']);
    }
}

} // verus!
