//! What is read out of the output of Git: changes, commits and contents.

use vstd::prelude::*;
use vstd::utf8::{decode_utf8, valid_utf8};

use super::changes::{
    after_line, changes_of, commits_of, contents_of, header_of, line_end, next_reply,
    status_of, BatchHeader, ChangeView, CommitView, Reply, Status,
};
use crate::history::git_laws::is_word;
use crate::text::{decimal, is_white, words, Text};
use crate::text_laws::{lemma_decimal_is_read_back, lemma_one_word, lemma_words_part};

verus! {

// ---------------------------------------------------------------------------
// Changes
// ---------------------------------------------------------------------------

/// The first letter of a status tells it; what follows is a score.
pub proof fn lemma_letter_tells_the_status(word: Text)
    ensures
        status_of(word) == Status::Added <==> word.len() > 0 && word[0] == 'A',
        status_of(word) == Status::Copied <==> word.len() > 0 && word[0] == 'C',
        status_of(word) == Status::Deleted <==> word.len() > 0 && word[0] == 'D',
        status_of(word) == Status::Modified <==> word.len() > 0 && word[0] == 'M',
        status_of(word) == Status::Renamed <==> word.len() > 0 && word[0] == 'R',
{
}

/// What stands before the paths of a change: a colon and the old mode, the new
/// mode, the old and the new blob, and the status.
pub open spec fn metadata(
    modes: (Text, Text),
    old_blob: Text,
    new_blob: Text,
    status: Text,
) -> Text {
    modes.0.push(' ') + (modes.1.push(' ') + (old_blob.push(' ') + (new_blob.push(' ') + status)))
}

proof fn lemma_metadata_is_read(
    modes: (Text, Text),
    old_blob: Text,
    new_blob: Text,
    status: Text,
)
    requires
        is_word(modes.0),
        is_word(modes.1),
        is_word(old_blob),
        is_word(new_blob),
        is_word(status),
    ensures
        words(metadata(modes, old_blob, new_blob, status)) == seq![
            modes.0,
            modes.1,
            old_blob,
            new_blob,
            status,
        ],
        metadata(modes, old_blob, new_blob, status)[0] == modes.0[0],
{
    let tail = new_blob.push(' ') + status;
    let more = old_blob.push(' ') + tail;
    let most = modes.1.push(' ') + more;
    lemma_words_part(modes.0, ' ', most);
    lemma_words_part(modes.1, ' ', more);
    lemma_words_part(old_blob, ' ', tail);
    lemma_words_part(new_blob, ' ', status);
    lemma_one_word(modes.0);
    lemma_one_word(modes.1);
    lemma_one_word(old_blob);
    lemma_one_word(new_blob);
    lemma_one_word(status);
    assert(seq![modes.0] + (seq![modes.1] + (seq![old_blob] + (seq![new_blob] + seq![status])))
        =~= seq![modes.0, modes.1, old_blob, new_blob, status]);
}

/// A change is read with the blob that the file had, under its old and its new
/// path: two where the status is a copy or a rename, else the same one. What
/// follows is read on.
pub proof fn lemma_change_is_read(
    modes: (Text, Text),
    old_blob: Text,
    new_blob: Text,
    status: Text,
    old_path: Text,
    new_path: Text,
    rest: Seq<Text>,
)
    requires
        is_word(modes.0),
        modes.0[0] == ':',
        is_word(modes.1),
        is_word(old_blob),
        is_word(new_blob),
        is_word(status),
    ensures
        ({
            let meta = metadata(modes, old_blob, new_blob, status);
            let (more, whole) = changes_of(rest);
            if status[0] == 'C' || status[0] == 'R' {
                &&& changes_of(seq![meta, old_path, new_path] + rest) == (
                    seq![
                        ChangeView { status: status_of(status), old_blob, old_path, new_path },
                    ] + more,
                    whole,
                )
                &&& changes_of(seq![meta, old_path]) == (Seq::<ChangeView>::empty(), false)
            } else {
                &&& changes_of(seq![meta, new_path] + rest) == (
                    seq![
                        ChangeView {
                            status: status_of(status),
                            old_blob,
                            old_path: new_path,
                            new_path,
                        },
                    ] + more,
                    whole,
                )
                &&& changes_of(seq![meta]) == (Seq::<ChangeView>::empty(), false)
            }
        }),
{
    let meta = metadata(modes, old_blob, new_blob, status);
    lemma_metadata_is_read(modes, old_blob, new_blob, status);
    let three = seq![meta, old_path, new_path] + rest;
    let two = seq![meta, new_path] + rest;
    assert(three[0] == meta && three[1] == old_path && three[2] == new_path);
    assert(two[0] == meta && two[1] == new_path);
    assert(three.skip(3) =~= rest);
    assert(two.skip(2) =~= rest);
}

/// Reading ends at what is no change: a field that does not start with a colon
/// or says too little. Nothing is no change and is read whole.
pub proof fn lemma_reading_ends_at_no_change(field: Text, rest: Seq<Text>)
    requires
        field.len() == 0 || field[0] != ':' || words(field).len() < 5,
    ensures
        changes_of(seq![field] + rest) == (Seq::<ChangeView>::empty(), false),
        changes_of(Seq::empty()) == (Seq::<ChangeView>::empty(), true),
{
    assert((seq![field] + rest)[0] == field);
}

// ---------------------------------------------------------------------------
// Commits
// ---------------------------------------------------------------------------

/// A commit is listed with its parents behind it on its line, and an empty line
/// lists none.
pub proof fn lemma_commit_is_listed(listing: Seq<Text>, sha: Text, parents: Text, empty: Text)
    requires
        is_word(sha),
        words(empty).len() == 0,
    ensures
        commits_of(listing.push(sha.push(' ') + parents)) == commits_of(listing).push(
            CommitView { sha, parents: words(parents) },
        ),
        commits_of(listing.push(sha)) == commits_of(listing).push(
            CommitView { sha, parents: Seq::empty() },
        ),
        commits_of(listing.push(empty)) == commits_of(listing),
        commits_of(Seq::empty()) == Seq::<CommitView>::empty(),
{
    lemma_words_part(sha, ' ', parents);
    lemma_one_word(sha);
    let names = seq![sha] + words(parents);
    assert(names[0] == sha);
    assert(names.skip(1) =~= words(parents));
    assert(seq![sha].skip(1) =~= Seq::<Text>::empty());
    assert(listing.push(sha.push(' ') + parents).drop_last() =~= listing);
    assert(listing.push(sha).drop_last() =~= listing);
    assert(listing.push(empty).drop_last() =~= listing);
}

// ---------------------------------------------------------------------------
// Contents
// ---------------------------------------------------------------------------

/// A header says a name, a type and a size, or that the object is missing.
pub proof fn lemma_header_is_read(name: Text, kind: Text, size: nat)
    requires
        is_word(name),
        is_word(kind),
    ensures
        size <= u64::MAX ==> header_of(name.push(' ') + (kind.push(' ') + decimal(size)))
            == BatchHeader::Size(size as u64),
        size > u64::MAX ==> header_of(name.push(' ') + (kind.push(' ') + decimal(size)))
            == BatchHeader::Invalid,
        header_of(name.push(' ') + seq!['m', 'i', 's', 's', 'i', 'n', 'g']) == BatchHeader::Missing,
{
    let digits = decimal(size);
    lemma_decimal_is_read_back(size);
    assert forall|i: int| #![trigger digits[i]] 0 <= i < digits.len() implies !is_white(
        digits[i],
    ) by {
        assert('0' <= digits[i] <= '9');
    }
    lemma_words_part(name, ' ', kind.push(' ') + digits);
    lemma_words_part(kind, ' ', digits);
    lemma_one_word(name);
    lemma_one_word(kind);
    lemma_one_word(digits);
    assert(seq![name] + (seq![kind] + seq![digits]) =~= seq![name, kind, digits]);
    reveal_strlit("missing");
    let missing = seq!['m', 'i', 's', 's', 'i', 'n', 'g'];
    assert("missing"@ =~= missing);
    assert(digits != missing) by {
        assert('0' <= digits[0] <= '9');
    }
    assert(digits[0] != '-');
    lemma_one_word(missing);
    lemma_words_part(name, ' ', missing);
    assert((seq![name] + seq![missing]).last() == missing);
    assert(seq![name, kind, digits].last() == digits);
}

proof fn lemma_line_ends(line: Seq<u8>, body: Seq<u8>)
    requires
        !line.contains(0x0au8),
    ensures
        line_end(line + seq![0x0au8] + body) == line.len(),
    decreases line.len(),
{
    let s = line + seq![0x0au8] + body;
    if line.len() > 0 {
        let rest = line.drop_first();
        assert(line.contains(line[0]));
        assert forall|i: int| 0 <= i < rest.len() implies rest[i] != 0x0au8 by {
            assert(line.contains(line[i + 1]));
        }
        lemma_line_ends(rest, body);
        assert(s.drop_first() =~= rest + seq![0x0au8] + body);
    }
}

/// The contents come one after the other, each behind a line with its size and
/// before a line break. The bytes of a content are taken as they are.
pub proof fn lemma_content_is_read(
    line: Seq<u8>,
    content: Seq<u8>,
    rest: Seq<u8>,
    requests: nat,
)
    requires
        !line.contains(0x0au8),
        valid_utf8(line),
        content.len() <= u64::MAX,
        header_of(decode_utf8(line)) == BatchHeader::Size(content.len() as u64),
    ensures
        ({
            let reply = line + seq![0x0au8] + content + seq![0x0au8] + rest;
            match contents_of(rest, requests) {
                Some(more) => contents_of(reply, requests + 1) == Some(seq![Some(content)] + more),
                None => contents_of(reply, requests + 1) is None,
            }
        }),
        contents_of(line + seq![0x0au8] + content, requests + 1) is None,
{
    let body = content + seq![0x0au8] + rest;
    let reply = line + seq![0x0au8] + content + seq![0x0au8] + rest;
    assert(reply =~= line + seq![0x0au8] + body);
    lemma_line_ends(line, body);
    assert(reply.take(line.len() as int) =~= line);
    assert(after_line(reply) =~= body);
    assert(body.take(content.len() as int) =~= content);
    assert(body.skip(content.len() as int + 1) =~= rest);
    assert(next_reply(reply) == (Reply::Content { content, rest }));
    let short = line + seq![0x0au8] + content;
    lemma_line_ends(line, content);
    assert(short.take(line.len() as int) =~= line);
    assert(after_line(short) =~= content);
    assert(next_reply(short) == Reply::Broken);
}

/// A missing object has no content, and what is left unanswered has none.
pub proof fn lemma_missing_content_is_read(line: Seq<u8>, rest: Seq<u8>, requests: nat)
    requires
        !line.contains(0x0au8),
        valid_utf8(line),
    ensures
        header_of(decode_utf8(line)) == BatchHeader::Missing ==> (match contents_of(
            rest,
            requests,
        ) {
            Some(more) => contents_of(line + seq![0x0au8] + rest, requests + 1) == Some(
                seq![None::<Seq<u8>>] + more,
            ),
            None => contents_of(line + seq![0x0au8] + rest, requests + 1) is None,
        }),
        header_of(decode_utf8(line)) == BatchHeader::Invalid ==> contents_of(
            line + seq![0x0au8] + rest,
            requests + 1,
        ) is None,
        contents_of(Seq::empty(), requests) == Some(Seq::new(requests, |i: int| None::<Seq<u8>>)),
    decreases requests,
{
    let reply = line + seq![0x0au8] + rest;
    lemma_line_ends(line, rest);
    assert(reply.take(line.len() as int) =~= line);
    assert(after_line(reply) =~= rest);
    let none = Seq::<u8>::empty();
    if requests > 0 {
        lemma_missing_content_is_read(line, rest, (requests - 1) as nat);
        let before = Seq::new((requests - 1) as nat, |i: int| None::<Seq<u8>>);
        assert(next_reply(none) == Reply::End);
        assert(seq![None::<Seq<u8>>] + before =~= Seq::new(requests, |i: int| None::<Seq<u8>>));
    } else {
        assert(Seq::<Option<Seq<u8>>>::empty() =~= Seq::new(requests, |i: int| None::<Seq<u8>>));
    }
}

} // verus!
