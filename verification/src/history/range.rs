//! The requested range `<from>..<to>`.

use vstd::prelude::*;
use vstd::string::*;

use super::error::{failure, HistoryError};
use crate::text::{chars_of, text_range, Text};

verus! {

/// Two dots stand in `s` at `at`.
pub open spec fn dots_at(s: Text, at: int) -> bool {
    0 <= at && at + 2 <= s.len() && s[at] == '.' && s[at + 1] == '.'
}

/// `s` is a range whose dots stand at `at`: there is no other place with two
/// dots, which rules out three in a row, and both sides say something.
pub open spec fn is_range(s: Text, at: int) -> bool {
    &&& dots_at(s, at)
    &&& forall|other: int| #[trigger] dots_at(s, other) ==> other == at
    &&& 0 < at
    &&& at + 2 < s.len()
}

/// The first place in `s` with two dots.
pub open spec fn first_dots(s: Text, at: int) -> bool {
    dots_at(s, at) && forall|other: int| 0 <= other < at ==> !#[trigger] dots_at(s, other)
}

/// What follows the first two dots of `s`; nothing if there are none.
pub open spec fn after_dots(s: Text) -> Text {
    if exists|at: int| first_dots(s, at) {
        s.skip((choose|at: int| first_dots(s, at)) + 2)
    } else {
        Seq::<char>::empty()
    }
}

/// The two sides of a range.
pub fn parse_range(range: &str) -> (r: Result<(String, String), HistoryError>)
    ensures
        match r {
            Ok((from, to)) => exists|at: int| #[trigger]
                is_range(range@, at) && from@ == range@.take(at) && to@ == range@.skip(at + 2),
            Err(error) => (forall|at: int| !#[trigger] is_range(range@, at)) && error@ == failure(
                range@,
                "expected one <from>..<to> range"@,
            ),
        },
{
    let chars = chars_of(range);
    let n: usize = chars.len();
    let mut found: Option<usize> = None;
    let mut many: bool = false;
    let mut i: usize = 0;
    while i < n && n - i >= 2
        invariant
            n == chars@.len(),
            chars@ == range@,
            i <= n,
            match found {
                Some(at) => at < i && dots_at(range@, at as int),
                None => !many,
            },
            !many ==> forall|other: int| #[trigger]
                dots_at(range@, other) && other < i ==> found == Some(other as usize),
            many ==> exists|a: int, b: int|
                a != b && #[trigger] dots_at(range@, a) && #[trigger] dots_at(range@, b),
        decreases n - i,
    {
        if chars[i] == '.' && chars[i + 1] == '.' {
            assert(dots_at(range@, i as int));
            match found {
                Some(at) => {
                    many = true;
                    assert(at != i && dots_at(range@, at as int));
                },
                None => {
                    found = Some(i);
                },
            }
        }
        i += 1;
    }
    assert forall|other: int| #[trigger] dots_at(range@, other) implies other < i by {}
    if !many {
        match found {
            Some(at) => {
                assert(dots_at(range@, at as int));
                if at > 0 && n - at > 2 {
                    assert(is_range(range@, at as int));
                    let from = text_range(&chars, 0, at);
                    let to = text_range(&chars, at + 2, n);
                    assert(from@ =~= range@.take(at as int));
                    assert(to@ =~= range@.skip(at + 2));
                    return Ok((from, to));
                }
            },
            None => {},
        }
    }
    assert forall|at: int| !#[trigger] is_range(range@, at) by {
        if is_range(range@, at) {
            assert(dots_at(range@, at));
        }
    }
    Err(HistoryError::new(range, "expected one <from>..<to> range".to_owned()))
}

/// What follows the first two dots of a range.
pub fn to_side(range: &str) -> (r: String)
    ensures
        r@ == after_dots(range@),
{
    let chars = chars_of(range);
    let n: usize = chars.len();
    let mut i: usize = 0;
    while i < n && n - i >= 2
        invariant
            n == chars@.len(),
            chars@ == range@,
            i <= n,
            forall|other: int| 0 <= other < i ==> !#[trigger] dots_at(range@, other),
        decreases n - i,
    {
        if chars[i] == '.' && chars[i + 1] == '.' {
            proof {
                assert(first_dots(range@, i as int));
                let at = choose|at: int| first_dots(range@, at);
                assert(dots_at(range@, at));
                assert(at == i);
            }
            let r = text_range(&chars, i + 2, n);
            assert(r@ =~= range@.skip(i + 2));
            return r;
        }
        i += 1;
    }
    String::new()
}

/// In a range, what follows the first two dots is its right side.
pub proof fn lemma_to_side(s: Text, at: int)
    requires
        is_range(s, at),
    ensures
        after_dots(s) == s.skip(at + 2),
{
    assert(first_dots(s, at));
    let chosen = choose|at: int| first_dots(s, at);
    assert(dots_at(s, chosen));
}

} // verus!
