//! Text as a sequence of characters: splitting, trimming, numbers and the few
//! string operations the rest of the library is written with.

use vstd::prelude::*;
use vstd::string::*;
use vstd::utf8::{decode_utf8, valid_utf8};

verus! {

/// The model of every string in this crate.
pub type Text = Seq<char>;

// ---------------------------------------------------------------------------
// What the operations mean
// ---------------------------------------------------------------------------

/// `s` cut at every occurrence of `separator`. A separator opens a new piece,
/// any other element extends the last one, so there is always one piece more
/// than there are separators.
pub open spec fn pieces<T>(s: Seq<T>, separator: T) -> Seq<Seq<T>>
    decreases s.len(),
{
    if s.len() == 0 {
        seq![Seq::<T>::empty()]
    } else {
        let before = pieces(s.drop_last(), separator);
        if s.last() == separator {
            before.push(Seq::<T>::empty())
        } else {
            before.drop_last().push(before.last().push(s.last()))
        }
    }
}

/// The members of `parts` that hold something, in their order.
pub open spec fn non_empty<T>(parts: Seq<Seq<T>>) -> Seq<Seq<T>>
    decreases parts.len(),
{
    if parts.len() == 0 {
        Seq::<Seq<T>>::empty()
    } else if parts.last().len() == 0 {
        non_empty(parts.drop_last())
    } else {
        non_empty(parts.drop_last()).push(parts.last())
    }
}

/// The characters with the Unicode property `White_Space`.
pub open spec fn is_white(c: char) -> bool {
    let u = c as u32;
    ||| 0x09 <= u <= 0x0d
    ||| u == 0x20
    ||| u == 0x85
    ||| u == 0xa0
    ||| u == 0x1680
    ||| 0x2000 <= u <= 0x200a
    ||| u == 0x2028
    ||| u == 0x2029
    ||| u == 0x202f
    ||| u == 0x205f
    ||| u == 0x3000
}

/// `s` cut at every white-space character.
pub open spec fn white_pieces(s: Text) -> Seq<Text>
    decreases s.len(),
{
    if s.len() == 0 {
        seq![Seq::<char>::empty()]
    } else {
        let before = white_pieces(s.drop_last());
        if is_white(s.last()) {
            before.push(Seq::<char>::empty())
        } else {
            before.drop_last().push(before.last().push(s.last()))
        }
    }
}

/// The maximal runs of `s` without white space.
pub open spec fn words(s: Text) -> Seq<Text> {
    non_empty(white_pieces(s))
}

/// A line without the carriage return that preceded its line feed.
pub open spec fn without_return(line: Text) -> Text {
    if line.len() > 0 && line.last() == '\r' {
        line.drop_last()
    } else {
        line
    }
}

/// The lines of `s`: each ends at a line feed, or at the end of the text when
/// something follows the last line feed.
pub open spec fn lines(s: Text) -> Seq<Text> {
    let parts = pieces(s, '\n');
    let ended = parts.drop_last().map_values(|line: Text| without_return(line));
    if parts.last().len() == 0 {
        ended
    } else {
        ended.push(parts.last())
    }
}

/// `s` without its leading white space.
pub open spec fn trim_start(s: Text) -> Text
    decreases s.len(),
{
    if s.len() > 0 && is_white(s[0]) {
        trim_start(s.drop_first())
    } else {
        s
    }
}

/// `s` without its trailing white space.
pub open spec fn trim_end(s: Text) -> Text
    decreases s.len(),
{
    if s.len() > 0 && is_white(s.last()) {
        trim_end(s.drop_last())
    } else {
        s
    }
}

/// `s` without white space at either end.
pub open spec fn trim(s: Text) -> Text {
    trim_end(trim_start(s))
}

/// `parts` in their order with `separator` between neighbours.
pub open spec fn join(parts: Seq<Text>, separator: Text) -> Text
    decreases parts.len(),
{
    if parts.len() == 0 {
        Seq::<char>::empty()
    } else if parts.len() == 1 {
        parts[0]
    } else {
        join(parts.drop_last(), separator) + separator + parts.last()
    }
}

pub open spec fn is_digit(c: char) -> bool {
    '0' <= c <= '9'
}

pub open spec fn digit(n: nat) -> char {
    (n + 0x30) as char
}

/// `n` in decimal, without leading zeros.
pub open spec fn decimal(n: nat) -> Text
    decreases n,
{
    if n < 10 {
        seq![digit(n)]
    } else {
        decimal(n / 10).push(digit(n % 10))
    }
}

/// `n` zeros.
pub open spec fn zeros(n: nat) -> Text {
    Seq::new(n, |i: int| '0')
}

/// `n` in decimal, filled with zeros on the left to `width` characters.
pub open spec fn padded(n: nat, width: nat) -> Text {
    let text = decimal(n);
    if text.len() < width {
        zeros((width - text.len()) as nat) + text
    } else {
        text
    }
}

/// The value of a run of digits.
pub open spec fn digits_value(s: Text) -> nat
    decreases s.len(),
{
    if s.len() == 0 {
        0
    } else {
        digits_value(s.drop_last()) * 10 + (s.last() as nat - 0x30) as nat
    }
}

pub open spec fn all_digits(s: Text) -> bool {
    forall|i: int| 0 <= i < s.len() ==> is_digit(#[trigger] s[i])
}

/// The integer that `s` writes: one or more digits, after an optional sign.
pub open spec fn integer(s: Text) -> Option<int> {
    let signed = s.len() > 0 && (s[0] == '+' || s[0] == '-');
    let body = if signed { s.drop_first() } else { s };
    if body.len() == 0 || !all_digits(body) {
        None
    } else if signed && s[0] == '-' {
        Some(-(digits_value(body) as int))
    } else {
        Some(digits_value(body) as int)
    }
}

/// `s` with every occurrence of `from` written as `to`.
pub open spec fn replaced(s: Text, from: char, to: char) -> Text {
    s.map_values(|c: char| if c == from { to } else { c })
}

pub open spec fn starts_with(s: Text, prefix: Text) -> bool {
    prefix.len() <= s.len() && s.take(prefix.len() as int) == prefix
}

/// `separator` occurs in `s` at `at`.
pub open spec fn occurs_at(s: Text, separator: Text, at: int) -> bool {
    0 <= at && at + separator.len() <= s.len() && s.subrange(at, at + separator.len())
        == separator
}

// ---------------------------------------------------------------------------
// Outside calls
// ---------------------------------------------------------------------------

/// `std::string::String::push`: the text grows by the one character.
pub assume_specification[ String::push ](text: &mut String, c: char)
    ensures
        final(text)@ == old(text)@.push(c),
;

/// What `String::from_utf8_lossy` makes of some bytes.
pub uninterp spec fn lossy(bytes: Seq<u8>) -> Seq<char>;

/// Calls `std::string::String::from_utf8_lossy`. The text is a function of the
/// bytes alone, and it is what the bytes encode wherever they are UTF-8. How
/// invalid sequences are replaced is left to the name.
#[verifier::external_body]
pub(crate) fn text_from_utf8(bytes: &[u8]) -> (r: String)
    ensures
        r@ == lossy(bytes@),
        valid_utf8(bytes@) ==> r@ == decode_utf8(bytes@),
{
    String::from_utf8_lossy(bytes).into_owned()
}

/// Calls `std::string::String::from_utf8`: the text that the bytes encode, and
/// none exactly where they are not UTF-8.
#[verifier::external_body]
pub(crate) fn text_if_utf8(bytes: Vec<u8>) -> (r: Option<String>)
    ensures
        r is Some <==> valid_utf8(bytes@),
        r matches Some(text) ==> text@ == decode_utf8(bytes@),
{
    String::from_utf8(bytes).ok()
}

// ---------------------------------------------------------------------------
// Characters and strings
// ---------------------------------------------------------------------------

pub fn chars_of(s: &str) -> (r: Vec<char>)
    ensures
        r@ == s@,
{
    let mut r: Vec<char> = Vec::new();
    for c in it: s.chars()
        invariant
            it.seq() == s@,
            r@ == s@.take(it.index() as int),
    {
        r.push(c);
    }
    r
}

/// The text of `chars[from..to]`.
pub fn text_range(chars: &Vec<char>, from: usize, to: usize) -> (r: String)
    requires
        from <= to <= chars@.len(),
    ensures
        r@ == chars@.subrange(from as int, to as int),
{
    let mut r = String::new();
    let mut i: usize = from;
    while i < to
        invariant
            from <= i <= to <= chars@.len(),
            r@ == chars@.subrange(from as int, i as int),
        decreases to - i,
    {
        r.push(chars[i]);
        i += 1;
    }
    r
}

/// Whether two texts are the same.
pub fn same(a: &str, b: &str) -> (r: bool)
    ensures
        r == (a@ == b@),
{
    let x = chars_of(a);
    let y = chars_of(b);
    if x.len() != y.len() {
        return false;
    }
    let mut i: usize = 0;
    while i < x.len()
        invariant
            x@ == a@,
            y@ == b@,
            x@.len() == y@.len(),
            i <= x@.len(),
            x@.take(i as int) == y@.take(i as int),
        decreases x@.len() - i,
    {
        if x[i] != y[i] {
            return false;
        }
        i += 1;
    }
    assert(x@.take(i as int) == x@ && y@.take(i as int) == y@);
    true
}

/// A copy of a list of texts.
pub fn copy_texts(list: &Vec<String>) -> (r: Vec<String>)
    ensures
        r.deep_view() == list.deep_view(),
{
    let mut r: Vec<String> = Vec::new();
    let mut i: usize = 0;
    while i < list.len()
        invariant
            i <= list@.len(),
            r@.len() == i,
            forall|k: int| 0 <= k < i ==> (#[trigger] r@[k])@ == list@[k]@,
        decreases list@.len() - i,
    {
        r.push(list[i].clone());
        i += 1;
    }
    assert(r.deep_view() =~= list.deep_view());
    r
}

/// Whether two lists hold the same texts in the same order.
pub fn same_texts(a: &Vec<String>, b: &Vec<String>) -> (r: bool)
    ensures
        r == (a.deep_view() == b.deep_view()),
{
    if a.len() != b.len() {
        assert(a.deep_view().len() != b.deep_view().len());
        return false;
    }
    let mut i: usize = 0;
    while i < a.len()
        invariant
            i <= a@.len(),
            a@.len() == b@.len(),
            forall|k: int| 0 <= k < i ==> (#[trigger] a@[k])@ == b@[k]@,
        decreases a@.len() - i,
    {
        if a[i] != b[i] {
            assert(a.deep_view()[i as int] != b.deep_view()[i as int]);
            return false;
        }
        i += 1;
    }
    assert(a.deep_view() =~= b.deep_view());
    true
}

/// Whether `list` holds `text`.
pub fn holds_text(list: &Vec<String>, text: &String) -> (r: bool)
    ensures
        r == list.deep_view().contains(text@),
{
    let mut i: usize = 0;
    while i < list.len()
        invariant
            i <= list@.len(),
            forall|k: int| 0 <= k < i ==> (#[trigger] list@[k])@ != text@,
        decreases list@.len() - i,
    {
        if list[i] == *text {
            assert(list.deep_view()[i as int] == text@);
            return true;
        }
        i += 1;
    }
    false
}

// ---------------------------------------------------------------------------
// Splitting
// ---------------------------------------------------------------------------

/// One more element either opens a piece or extends the last one.
pub proof fn lemma_pieces_step<T>(s: Seq<T>, separator: T, i: int)
    requires
        0 <= i < s.len(),
    ensures
        pieces(s.take(i + 1), separator) == (if s[i] == separator {
            pieces(s.take(i), separator).push(Seq::<T>::empty())
        } else {
            let before = pieces(s.take(i), separator);
            before.drop_last().push(before.last().push(s[i]))
        }),
{
    assert(s.take(i + 1).drop_last() =~= s.take(i));
}

/// Pushing adds one member.
pub(crate) proof fn lemma_push_is_insert<T>(s: Seq<T>, last: T)
    ensures
        forall|x: T| #[trigger] s.push(last).contains(x) <==> s.contains(x) || x == last,
{
    assert forall|x: T| #[trigger] s.push(last).contains(x) <==> s.contains(x) || x == last by {
        if s.contains(x) {
            let j = choose|j: int| 0 <= j < s.len() && s[j] == x;
            assert(s.push(last)[j] == x);
        }
        assert(s.push(last)[s.len() as int] == last);
    }
}

/// There is at least one piece.
pub proof fn lemma_pieces_some<T>(s: Seq<T>, separator: T)
    ensures
        pieces(s, separator).len() > 0,
    decreases s.len(),
{
    if s.len() > 0 {
        lemma_pieces_some(s.drop_last(), separator);
    }
}

/// One more part is kept exactly when it holds something.
pub proof fn lemma_non_empty_push<T>(parts: Seq<Seq<T>>, part: Seq<T>)
    ensures
        non_empty(parts.push(part)) == (if part.len() == 0 {
            non_empty(parts)
        } else {
            non_empty(parts).push(part)
        }),
{
    assert(parts.push(part).drop_last() =~= parts);
}

/// The views of a list of byte strings.
pub open spec fn byte_views(list: Seq<Vec<u8>>) -> Seq<Seq<u8>> {
    list.map_values(|bytes: Vec<u8>| bytes@)
}

/// The pieces of some bytes.
pub fn split_bytes(bytes: &Vec<u8>, separator: u8) -> (r: Vec<Vec<u8>>)
    ensures
        byte_views(r@) == pieces(bytes@, separator),
{
    let mut r: Vec<Vec<u8>> = Vec::new();
    let mut current: Vec<u8> = Vec::new();
    let mut i: usize = 0;
    while i < bytes.len()
        invariant
            i <= bytes@.len(),
            pieces(bytes@.take(i as int), separator) =~= byte_views(r@).push(current@),
        decreases bytes@.len() - i,
    {
        proof {
            lemma_pieces_step(bytes@, separator, i as int);
            assert(byte_views(r@).push(current@).drop_last() =~= byte_views(r@));
        }
        if bytes[i] == separator {
            r.push(current);
            current = Vec::new();
        } else {
            current.push(bytes[i]);
        }
        i += 1;
    }
    assert(bytes@.take(i as int) =~= bytes@);
    r.push(current);
    assert(byte_views(r@) =~= pieces(bytes@, separator));
    r
}

/// The pieces of some bytes that hold something.
pub fn split_bytes_non_empty(bytes: &Vec<u8>, separator: u8) -> (r: Vec<Vec<u8>>)
    ensures
        byte_views(r@) == non_empty(pieces(bytes@, separator)),
{
    let all = split_bytes(bytes, separator);
    let mut r: Vec<Vec<u8>> = Vec::new();
    let mut i: usize = 0;
    while i < all.len()
        invariant
            i <= all@.len(),
            byte_views(r@) =~= non_empty(byte_views(all@).take(i as int)),
        decreases all@.len() - i,
    {
        let part = copy_bytes(&all[i], 0, all[i].len());
        proof {
            let views = byte_views(all@);
            lemma_non_empty_push(views.take(i as int), views[i as int]);
            assert(views.take(i + 1) =~= views.take(i as int).push(views[i as int]));
            assert(part@ =~= views[i as int]);
        }
        if part.len() > 0 {
            r.push(part);
        }
        i += 1;
    }
    assert(byte_views(all@).take(i as int) =~= byte_views(all@));
    r
}

/// The bytes `bytes[from..to]`.
pub fn copy_bytes(bytes: &Vec<u8>, from: usize, to: usize) -> (r: Vec<u8>)
    requires
        from <= to <= bytes@.len(),
    ensures
        r@ == bytes@.subrange(from as int, to as int),
{
    let mut r: Vec<u8> = Vec::new();
    let mut i: usize = from;
    while i < to
        invariant
            from <= i <= to <= bytes@.len(),
            r@ == bytes@.subrange(from as int, i as int),
        decreases to - i,
    {
        r.push(bytes[i]);
        i += 1;
    }
    r
}

/// The pieces of a text.
pub fn split_text(s: &str, separator: char) -> (r: Vec<String>)
    ensures
        r.deep_view() == pieces(s@, separator),
{
    let chars = chars_of(s);
    let mut r: Vec<String> = Vec::new();
    let mut current = String::new();
    let mut i: usize = 0;
    while i < chars.len()
        invariant
            i <= chars@.len(),
            pieces(chars@.take(i as int), separator) =~= r.deep_view().push(current@),
        decreases chars@.len() - i,
    {
        proof {
            lemma_pieces_step(chars@, separator, i as int);
            assert(r.deep_view().push(current@).drop_last() =~= r.deep_view());
        }
        if chars[i] == separator {
            r.push(current);
            current = String::new();
        } else {
            current.push(chars[i]);
        }
        i += 1;
    }
    assert(chars@.take(i as int) =~= chars@);
    r.push(current);
    assert(r.deep_view() =~= pieces(s@, separator));
    r
}

/// The members of a list that hold something.
pub fn drop_empty(list: Vec<String>) -> (r: Vec<String>)
    ensures
        r.deep_view() == non_empty(list.deep_view()),
{
    let mut r: Vec<String> = Vec::new();
    let mut i: usize = 0;
    while i < list.len()
        invariant
            i <= list@.len(),
            r.deep_view() =~= non_empty(list.deep_view().take(i as int)),
        decreases list@.len() - i,
    {
        proof {
            let views = list.deep_view();
            lemma_non_empty_push(views.take(i as int), views[i as int]);
            assert(views.take(i + 1) =~= views.take(i as int).push(views[i as int]));
        }
        if !list[i].as_str().is_empty() {
            r.push(list[i].clone());
        }
        i += 1;
    }
    assert(list.deep_view().take(i as int) =~= list.deep_view());
    r
}

/// Whether a character has the Unicode property `White_Space`.
pub fn white(c: char) -> (r: bool)
    ensures
        r == is_white(c),
{
    let u: u32 = c as u32;
    (0x09 <= u && u <= 0x0d) || u == 0x20 || u == 0x85 || u == 0xa0 || u == 0x1680 || (0x2000 <= u
        && u <= 0x200a) || u == 0x2028 || u == 0x2029 || u == 0x202f || u == 0x205f || u == 0x3000
}

/// The words of a text.
pub fn split_words(s: &str) -> (r: Vec<String>)
    ensures
        r.deep_view() == words(s@),
{
    let chars = chars_of(s);
    let mut r: Vec<String> = Vec::new();
    let mut current = String::new();
    let mut i: usize = 0;
    while i < chars.len()
        invariant
            i <= chars@.len(),
            white_pieces(chars@.take(i as int)) =~= r.deep_view().push(current@),
        decreases chars@.len() - i,
    {
        proof {
            assert(chars@.take(i + 1).drop_last() =~= chars@.take(i as int));
            assert(r.deep_view().push(current@).drop_last() =~= r.deep_view());
        }
        if white(chars[i]) {
            r.push(current);
            current = String::new();
        } else {
            current.push(chars[i]);
        }
        i += 1;
    }
    assert(chars@.take(i as int) =~= chars@);
    r.push(current);
    assert(r.deep_view() =~= white_pieces(s@));
    drop_empty(r)
}

/// The lines of a text.
pub fn split_lines(s: &str) -> (r: Vec<String>)
    ensures
        r.deep_view() == lines(s@),
{
    let parts = split_text(s, '\n');
    proof {
        lemma_pieces_some(s@, '\n');
    }
    let ghost views = pieces(s@, '\n');
    let last: usize = parts.len() - 1;
    let mut r: Vec<String> = Vec::new();
    let mut i: usize = 0;
    while i < last
        invariant
            i <= last,
            last == parts@.len() - 1,
            parts.deep_view() == views,
            r@.len() == i,
            forall|k: int| 0 <= k < i ==> (#[trigger] r@[k])@ == without_return(views[k]),
        decreases last - i,
    {
        let chars = chars_of(parts[i].as_str());
        let n: usize = chars.len();
        assert(chars@ == views[i as int]);
        if n > 0 && chars[n - 1] == '\r' {
            r.push(text_range(&chars, 0, n - 1));
            assert(chars@.subrange(0, n - 1) =~= chars@.drop_last());
        } else {
            r.push(parts[i].clone());
        }
        i += 1;
    }
    assert(r.deep_view() =~= views.drop_last().map_values(|line: Text| without_return(line)));
    assert(parts@[last as int]@ == views.last());
    if !parts[last].as_str().is_empty() {
        r.push(parts[last].clone());
    }
    assert(r.deep_view() =~= lines(s@));
    r
}

// ---------------------------------------------------------------------------
// Trimming, joining, replacing
// ---------------------------------------------------------------------------

/// A text without white space at either end.
pub fn trimmed(s: &str) -> (r: String)
    ensures
        r@ == trim(s@),
{
    let chars = chars_of(s);
    let mut from: usize = 0;
    assert(chars@.skip(0) =~= chars@);
    while from < chars.len() && white(chars[from])
        invariant
            chars@ == s@,
            from <= chars@.len(),
            trim_start(s@) == trim_start(chars@.skip(from as int)),
        decreases chars@.len() - from,
    {
        assert(chars@.skip(from as int).drop_first() =~= chars@.skip(from + 1));
        from += 1;
    }
    assert(trim_start(s@) == chars@.skip(from as int));
    let mut to: usize = chars.len();
    assert(chars@.subrange(from as int, to as int) =~= chars@.skip(from as int));
    while from < to && white(chars[to - 1])
        invariant
            from <= to <= chars@.len(),
            trim_end(trim_start(s@)) == trim_end(chars@.subrange(from as int, to as int)),
        decreases to,
    {
        assert(chars@.subrange(from as int, to as int).drop_last() =~= chars@.subrange(
            from as int,
            to - 1,
        ));
        to -= 1;
    }
    text_range(&chars, from, to)
}

/// The members of a list with `separator` between neighbours.
pub fn joined(list: &Vec<String>, separator: &str) -> (r: String)
    ensures
        r@ == join(list.deep_view(), separator@),
{
    let mut r = String::new();
    let mut i: usize = 0;
    while i < list.len()
        invariant
            i <= list@.len(),
            r@ == join(list.deep_view().take(i as int), separator@),
        decreases list@.len() - i,
    {
        proof {
            let views = list.deep_view();
            assert(views.take(i + 1).drop_last() =~= views.take(i as int));
            assert(views.take(i + 1).last() == list@[i as int]@);
        }
        if i > 0 {
            r.append(separator);
        }
        r.append(list[i].as_str());
        assert(i == 0 ==> r@ =~= list@[0]@);
        i += 1;
    }
    assert(list.deep_view().take(i as int) =~= list.deep_view());
    r
}

/// A text with every occurrence of one character written as another.
pub fn replace_char(s: &str, from: char, to: char) -> (r: String)
    ensures
        r@ == replaced(s@, from, to),
{
    let chars = chars_of(s);
    let mut r = String::new();
    let mut i: usize = 0;
    while i < chars.len()
        invariant
            i <= chars@.len(),
            r@ =~= replaced(chars@.take(i as int), from, to),
        decreases chars@.len() - i,
    {
        if chars[i] == from {
            r.push(to);
        } else {
            r.push(chars[i]);
        }
        i += 1;
    }
    assert(chars@.take(i as int) =~= chars@);
    r
}

/// Whether `prefix` stands in `chars` at `at`.
pub fn stands_at(chars: &Vec<char>, prefix: &Vec<char>, at: usize) -> (r: bool)
    requires
        at <= chars@.len(),
    ensures
        r == occurs_at(chars@, prefix@, at as int),
{
    let n: usize = chars.len();
    if prefix.len() > n - at {
        return false;
    }
    let mut i: usize = 0;
    while i < prefix.len()
        invariant
            i <= prefix@.len(),
            n == chars@.len(),
            at + prefix@.len() <= n,
            forall|k: int| 0 <= k < i ==> chars@[at + k] == #[trigger] prefix@[k],
        decreases prefix@.len() - i,
    {
        if chars[at + i] != prefix[i] {
            assert(chars@.subrange(at as int, at + prefix@.len())[i as int] != prefix@[i as int]);
            return false;
        }
        i += 1;
    }
    assert(chars@.subrange(at as int, at + prefix@.len()) =~= prefix@);
    true
}

/// Whether a text starts with another.
pub fn has_prefix(s: &str, prefix: &str) -> (r: bool)
    ensures
        r == starts_with(s@, prefix@),
{
    let chars = chars_of(s);
    let head = chars_of(prefix);
    proof {
        if head@.len() <= chars@.len() {
            assert(chars@.subrange(0, head@.len() as int) =~= chars@.take(head@.len() as int));
        }
    }
    stands_at(&chars, &head, 0)
}

/// Whether a text starts with a character.
pub fn first_is(s: &str, c: char) -> (r: bool)
    ensures
        r == (s@.len() > 0 && s@[0] == c),
{
    let chars = chars_of(s);
    chars.len() > 0 && chars[0] == c
}

// ---------------------------------------------------------------------------
// Numbers
// ---------------------------------------------------------------------------

/// The digit for a value below ten.
fn digit_char(n: u64) -> (r: char)
    requires
        n < 10,
    ensures
        r == digit(n as nat),
{
    let code: u8 = (n + 0x30) as u8;
    code as char
}

/// Writes `n` in decimal at the end of `out`.
pub fn append_decimal(out: &mut String, n: u64)
    ensures
        final(out)@ == old(out)@ + decimal(n as nat),
    decreases n,
{
    if n >= 10 {
        append_decimal(out, n / 10);
    }
    out.push(digit_char(n % 10));
    assert(out@ =~= old(out)@ + decimal(n as nat));
}

/// `n` in decimal.
pub fn decimal_text(n: u64) -> (r: String)
    ensures
        r@ == decimal(n as nat),
{
    let mut r = String::new();
    append_decimal(&mut r, n);
    assert(r@ =~= decimal(n as nat));
    r
}

/// Writes `n` in decimal at the end of `out`, zero-filled to `width`.
pub fn append_padded(out: &mut String, n: u64, width: usize)
    ensures
        final(out)@ == old(out)@ + padded(n as nat, width as nat),
{
    let digits = decimal_text(n);
    let mut length: usize = chars_of(digits.as_str()).len();
    let ghost start: int = length as int;
    let ghost before = out@;
    assert(out@ =~= before + zeros(0));
    while length < width
        invariant
            start <= length,
            length <= width || length == start,
            out@ == before + zeros((length - start) as nat),
        decreases width - length,
    {
        out.push('0');
        length += 1;
        assert(out@ =~= before + zeros((length - start) as nat));
    }
    out.append(digits.as_str());
    assert(out@ =~= before + padded(n as nat, width as nat));
}

/// The bound above which a parsed number is no longer told apart.
const CAP: u128 = 1_000_000_000_000_000_000_000;

/// The value of the digits from `from` on, capped; `None` when there are none
/// or something else stands among them.
fn digits_from(chars: &Vec<char>, from: usize) -> (r: Option<u128>)
    requires
        from <= chars@.len(),
    ensures
        ({
            let body = chars@.skip(from as int);
            match r {
                Some(v) => body.len() > 0 && all_digits(body) && v == (if digits_value(body)
                    < CAP {
                    digits_value(body) as int
                } else {
                    CAP as int
                }),
                None => body.len() == 0 || !all_digits(body),
            }
        }),
{
    let ghost body = chars@.skip(from as int);
    if from == chars.len() {
        return None;
    }
    let mut value: u128 = 0;
    let mut i: usize = from;
    while i < chars.len()
        invariant
            from <= i <= chars@.len(),
            body == chars@.skip(from as int),
            all_digits(body.take(i - from)),
            value == (if digits_value(body.take(i - from)) < CAP {
                digits_value(body.take(i - from)) as int
            } else {
                CAP as int
            }),
        decreases chars@.len() - i,
    {
        let c = chars[i];
        assert(body[i - from] == c);
        if !('0' <= c && c <= '9') {
            assert(!is_digit(body[i - from]));
            return None;
        }
        assert(body.take(i + 1 - from).drop_last() =~= body.take(i - from));
        let next: u128 = value * 10 + (c as u32 - 0x30) as u128;
        value = if next < CAP {
            next
        } else {
            CAP
        };
        assert forall|k: int| 0 <= k < body.take(i + 1 - from).len() implies is_digit(
            #[trigger] body.take(i + 1 - from)[k],
        ) by {
            if k < i - from {
                assert(body.take(i + 1 - from)[k] == body.take(i - from)[k]);
            }
        }
        i += 1;
    }
    assert(body.take(i - from) =~= body);
    Some(value)
}

/// Reads a signed number; `None` unless the text writes one that fits.
pub fn parse_i64(s: &str) -> (r: Option<i64>)
    ensures
        r == (match integer(s@) {
            Some(v) => if i64::MIN <= v <= i64::MAX {
                Some(v as i64)
            } else {
                None
            },
            None => None,
        }),
{
    let chars = chars_of(s);
    let negative: bool = chars.len() > 0 && chars[0] == '-';
    let from: usize = if negative || (chars.len() > 0 && chars[0] == '+') {
        1
    } else {
        0
    };
    proof {
        assert(chars@.skip(0) =~= chars@);
        if chars@.len() > 0 {
            assert(chars@.skip(1) =~= chars@.drop_first());
        }
    }
    match digits_from(&chars, from) {
        None => None,
        Some(v) => {
            if negative {
                if v <= 0x8000_0000_0000_0000 {
                    Some((-(v as i128)) as i64)
                } else {
                    None
                }
            } else if v <= 0x7fff_ffff_ffff_ffff {
                Some(v as i64)
            } else {
                None
            }
        },
    }
}

/// Reads an unsigned number, which may have a plus sign; `None` unless the
/// text writes one that fits.
pub fn parse_u64(s: &str) -> (r: Option<u64>)
    ensures
        r == (match integer(s@) {
            Some(v) => if s@[0] != '-' && v <= u64::MAX {
                Some(v as u64)
            } else {
                None
            },
            None => None,
        }),
{
    let chars = chars_of(s);
    if chars.len() > 0 && chars[0] == '-' {
        return None;
    }
    let from: usize = if chars.len() > 0 && chars[0] == '+' {
        1
    } else {
        0
    };
    proof {
        assert(chars@.skip(0) =~= chars@);
        if chars@.len() > 0 {
            assert(chars@.skip(1) =~= chars@.drop_first());
        }
    }
    match digits_from(&chars, from) {
        None => None,
        Some(v) => {
            if v <= 0xffff_ffff_ffff_ffff {
                Some(v as u64)
            } else {
                None
            }
        },
    }
}

} // verus!
