//! The dictionary file format: one word per line, and a checksum line.
//!
//! A file holds each word on a line of its own and, as its last line and
//! without a line feed after it, the checksum line. A reader accepts the
//! checksum line wherever it stands and leaves it out of the words.

use vstd::prelude::*;
use vstd::string::StringExecFns;
use crate::checksum::{canonical_lines, canonical_text, hex_text, lines_text, nibble_at, Digest};
use crate::strings::{chars_of, text_between};
use crate::word_set::{canonical_order, lemma_canonical_order_lists, WordSet};

verus! {

/// What a checksum line starts with.
pub const CHECKSUM_PRELUDE: &'static str = "checksum_v1 = ";

/// The characters of [`CHECKSUM_PRELUDE`].
pub open spec fn checksum_prelude() -> Seq<char> {
    seq!['c', 'h', 'e', 'c', 'k', 's', 'u', 'm', '_', 'v', '1', ' ', '=', ' ']
}

/// The index of the first line feed in `text`, or the length of `text` if it
/// holds none.
pub open spec fn first_line_feed(text: Seq<char>) -> int
    decreases text.len(),
{
    if text.len() == 0 || text[0] == '\n' {
        0
    } else {
        1 + first_line_feed(text.drop_first())
    }
}

/// A line without the carriage return that stood before its line feed.
pub open spec fn without_carriage_return(line: Seq<char>) -> Seq<char> {
    if line.len() > 0 && line.last() == '\r' {
        line.drop_last()
    } else {
        line
    }
}

/// The lines of a text. A line ends at a line feed, or at a carriage return
/// that a line feed follows; neither belongs to the line. What follows the
/// last line feed is a line of its own unless it is empty.
pub open spec fn lines_of(text: Seq<char>) -> Seq<Seq<char>>
    decreases text.len(),
{
    if text.len() == 0 {
        Seq::empty()
    } else {
        let n = first_line_feed(text);
        if 0 <= n < text.len() {
            seq![without_carriage_return(text.take(n))] + lines_of(text.skip(n + 1))
        } else {
            seq![text]
        }
    }
}

/// `needle` stands in `hay` at index `k`.
pub open spec fn occurs_at(needle: Seq<char>, hay: Seq<char>, k: int) -> bool {
    &&& 0 <= k
    &&& k + needle.len() <= hay.len()
    &&& hay.subrange(k, k + needle.len()) == needle
}

/// `needle` stands somewhere in `hay`.
pub open spec fn occurs_in(needle: Seq<char>, hay: Seq<char>) -> bool {
    exists|k: int| occurs_at(needle, hay, k)
}

/// A line counts as a checksum line when the prelude stands anywhere in it.
pub open spec fn is_checksum_line(line: Seq<char>) -> bool {
    occurs_in(checksum_prelude(), line)
}

/// The lines among `lines` that are words, as a set.
pub open spec fn kept_lines(lines: Seq<Seq<char>>) -> Set<Seq<char>> {
    Set::new(|word: Seq<char>| lines.contains(word) && !is_checksum_line(word))
}

/// The words of a dictionary file with the content `text`: its lines, but for
/// the checksum lines.
pub open spec fn words_in(text: Seq<char>) -> Set<Seq<char>> {
    kept_lines(lines_of(text))
}

/// The content of the dictionary file for a set of words and a digest: the
/// words in ascending order, each followed by a line feed, then the checksum
/// line with the digest in hexadecimal and no line feed after it.
pub open spec fn file_text(words: Set<Seq<char>>, digest: Seq<u8>) -> Seq<char> {
    canonical_text(words) + checksum_prelude() + hex_text(digest)
}

/// `first_line_feed` is within the text, no line feed stands before it, and
/// one stands at it unless it is the end of the text.
pub proof fn lemma_first_line_feed(text: Seq<char>)
    ensures
        0 <= first_line_feed(text) <= text.len(),
        forall|j: int| 0 <= j < first_line_feed(text) ==> text[j] != '\n',
        first_line_feed(text) < text.len() ==> text[first_line_feed(text)] == '\n',
    decreases text.len(),
{
    if text.len() == 0 || text[0] == '\n' {
    } else {
        let rest = text.drop_first();
        lemma_first_line_feed(rest);
        assert forall|j: int| 0 <= j < first_line_feed(text) implies text[j] != '\n' by {
            if j > 0 {
                assert(text[j] == rest[j - 1]);
            }
        }
        if first_line_feed(text) < text.len() {
            assert(text[first_line_feed(text)] == rest[first_line_feed(rest)]);
        }
    }
}

/// An index with no line feed before it, which is the end of the text or
/// holds a line feed, is the first line feed.
pub proof fn lemma_first_line_feed_is(text: Seq<char>, k: int)
    requires
        0 <= k <= text.len(),
        forall|j: int| 0 <= j < k ==> text[j] != '\n',
        k < text.len() ==> text[k] == '\n',
    ensures
        first_line_feed(text) == k,
{
    lemma_first_line_feed(text);
    let n = first_line_feed(text);
    if n < k {
        assert(text[n] == '\n');
    } else if k < n {
        assert(text[k] != '\n');
    }
}

/// Adding a line to a list adds it to the words, unless it is a checksum
/// line.
pub proof fn lemma_kept_lines_push(lines: Seq<Seq<char>>, line: Seq<char>)
    ensures
        kept_lines(lines.push(line)) == if is_checksum_line(line) {
            kept_lines(lines)
        } else {
            kept_lines(lines).insert(line)
        },
{
    let longer = lines.push(line);
    assert forall|word: Seq<char>| longer.contains(word) <==> lines.contains(word) || word
        == line by {
        if lines.contains(word) {
            let i = choose|i: int| 0 <= i < lines.len() && lines[i] == word;
            assert(longer[i] == word);
        }
        if word == line {
            assert(longer[lines.len() as int] == word);
        }
        if longer.contains(word) {
            let i = choose|i: int| 0 <= i < longer.len() && longer[i] == word;
            if i < lines.len() {
                assert(lines[i] == word);
            }
        }
    }
    if is_checksum_line(line) {
        assert(kept_lines(longer) =~= kept_lines(lines));
    } else {
        assert(kept_lines(longer) =~= kept_lines(lines).insert(line));
    }
}

/// A word that comes back from a file as it was written to it: it holds no
/// line feed, does not end in a carriage return, and the checksum prelude
/// stands nowhere in it.
pub open spec fn is_storable(word: Seq<char>) -> bool {
    &&& forall|i: int| 0 <= i < word.len() ==> word[i] != '\n'
    &&& (word.len() > 0 ==> word.last() != '\r')
    &&& !is_checksum_line(word)
}

/// A line and its line feed in front of a text add that line in front of
/// the lines of the text.
pub proof fn lemma_lines_of_line_then(line: Seq<char>, rest: Seq<char>)
    requires
        forall|i: int| 0 <= i < line.len() ==> line[i] != '\n',
        line.len() > 0 ==> line.last() != '\r',
    ensures
        lines_of(line + seq!['\n'] + rest) == seq![line] + lines_of(rest),
{
    let text = line + seq!['\n'] + rest;
    lemma_first_line_feed_is(text, line.len() as int);
    assert(text.take(line.len() as int) =~= line);
    assert(text.skip(line.len() as int + 1) =~= rest);
}

/// Words written one per line, in front of a text, are the first lines of
/// the whole.
pub proof fn lemma_lines_of_lines_text(words: Seq<Seq<char>>, rest: Seq<char>)
    requires
        forall|i: int| 0 <= i < words.len() ==> is_storable(#[trigger] words[i]),
    ensures
        lines_of(lines_text(words) + rest) == words + lines_of(rest),
    decreases words.len(),
{
    if words.len() == 0 {
        assert(lines_text(words) + rest =~= rest);
        assert(words + lines_of(rest) =~= lines_of(rest));
    } else {
        let head = words.drop_last();
        let last = words.last();
        let tail = last + seq!['\n'] + rest;
        assert(is_storable(words[words.len() - 1]));
        assert forall|i: int| 0 <= i < head.len() implies is_storable(#[trigger] head[i]) by {
            assert(is_storable(words[i]));
        }
        lemma_lines_of_lines_text(head, tail);
        lemma_lines_of_line_then(last, rest);
        assert(lines_text(words) + rest =~= lines_text(head) + tail);
        assert(head + (seq![last] + lines_of(rest)) =~= words + lines_of(rest));
    }
}

/// A set of words that was written to a file is read back from it as it
/// was, whatever digest stands in the checksum line, provided that every
/// word is storable.
pub proof fn lemma_reload_yields_saved_words(words: Set<Seq<char>>, digest: Seq<u8>)
    requires
        words.finite(),
        forall|word: Seq<char>| words.contains(word) ==> is_storable(word),
    ensures
        words_in(file_text(words, digest)) == words,
{
    lemma_canonical_order_lists(words);
    let listed = canonical_order(words);
    let last_line = checksum_prelude() + hex_text(digest);
    assert forall|i: int| 0 <= i < listed.len() implies is_storable(#[trigger] listed[i]) by {
        assert(listed.to_set().contains(listed[i]));
    }
    lemma_lines_of_lines_text(listed, last_line);
    assert(file_text(words, digest) =~= lines_text(listed) + last_line);
    assert forall|j: int| 0 <= j < last_line.len() implies last_line[j] != '\n' by {
        if j >= checksum_prelude().len() {
            let nibble = nibble_at(digest, j - checksum_prelude().len());
            assert(0 <= nibble < 16);
        }
    }
    lemma_first_line_feed_is(last_line, last_line.len() as int);
    assert(lines_of(last_line) =~= seq![last_line]);
    assert(listed + seq![last_line] =~= listed.push(last_line));
    lemma_kept_lines_push(listed, last_line);
    assert(last_line.subrange(0, checksum_prelude().len() as int) =~= checksum_prelude());
    assert(occurs_at(checksum_prelude(), last_line, 0));
    assert(kept_lines(listed) =~= words);
}

/// Whether `needle` stands at index `at` of `hay[from..to]`.
fn stands_at(
    needle: &Vec<char>,
    hay: &Vec<char>,
    from: usize,
    to: usize,
    at: usize,
) -> (found: bool)
    requires
        from <= to <= hay.len(),
        at + needle.len() <= to - from,
    ensures
        found == occurs_at(needle@, hay@.subrange(from as int, to as int), at as int),
{
    let ghost line = hay@.subrange(from as int, to as int);
    let mut i: usize = 0;
    while i < needle.len()
        invariant
            from <= to <= hay.len(),
            at + needle.len() <= to - from,
            i <= needle.len(),
            line == hay@.subrange(from as int, to as int),
            forall|j: int| 0 <= j < i ==> line[at + j] == needle@[j],
        decreases needle.len() - i,
    {
        if hay[from + at + i] != needle[i] {
            assert(line[at + i] != needle@[i as int]);
            assert(line.subrange(at as int, at + needle@.len())[i as int] == line[at + i]);
            return false;
        }
        i += 1;
    }
    assert(line.subrange(at as int, at + needle@.len()) =~= needle@);
    true
}

/// Whether `needle` stands anywhere in `hay[from..to]`.
fn stands_in(needle: &Vec<char>, hay: &Vec<char>, from: usize, to: usize) -> (found: bool)
    requires
        from <= to <= hay.len(),
    ensures
        found == occurs_in(needle@, hay@.subrange(from as int, to as int)),
{
    let ghost line = hay@.subrange(from as int, to as int);
    if needle.len() > to - from {
        assert forall|k: int| !occurs_at(needle@, line, k) by {}
        return false;
    }
    let last: usize = to - from - needle.len();
    let mut at: usize = 0;
    loop
        invariant
            from <= to <= hay.len(),
            needle.len() <= to - from,
            last == to - from - needle.len(),
            at <= last,
            line == hay@.subrange(from as int, to as int),
            forall|k: int| 0 <= k < at ==> !occurs_at(needle@, line, k),
        decreases last - at,
    {
        if stands_at(needle, hay, from, to, at) {
            return true;
        }
        if at == last {
            assert forall|k: int| !occurs_at(needle@, line, k) by {}
            return false;
        }
        at += 1;
    }
}

/// Reads the words of a dictionary file from its content: every line of
/// `content` but the checksum lines, each word once.
pub fn words_from_text(content: &str) -> (words: WordSet)
    ensures
        words@ == words_in(content@),
{
    let chars = chars_of(content);
    let prelude = chars_of(CHECKSUM_PRELUDE);
    proof {
        reveal_strlit("checksum_v1 = ");
        assert(prelude@ =~= checksum_prelude());
    }
    let ghost text = chars@;
    let ghost mut seen: Seq<Seq<char>> = Seq::empty();
    let mut words = WordSet::new();
    let mut start: usize = 0;
    assert(text.skip(0) =~= text);
    assert(kept_lines(seen) =~= Set::<Seq<char>>::empty());
    while start < chars.len()
        invariant
            start <= chars.len(),
            text == chars@,
            prelude@ == checksum_prelude(),
            lines_of(text) == seen + lines_of(text.skip(start as int)),
            words@ == kept_lines(seen),
        decreases chars.len() - start,
    {
        let mut end: usize = start;
        while end < chars.len() && chars[end] != '\n'
            invariant
                start <= end <= chars.len(),
                forall|j: int| start <= j < end ==> chars@[j] != '\n',
            decreases chars.len() - end,
        {
            end += 1;
        }
        let terminated = end < chars.len();
        let stop: usize = if terminated && end > start && chars[end - 1] == '\r' {
            end - 1
        } else {
            end
        };
        let next: usize = if terminated {
            end + 1
        } else {
            end
        };
        let ghost line = text.subrange(start as int, stop as int);
        proof {
            let rest = text.skip(start as int);
            lemma_first_line_feed_is(rest, end - start);
            if terminated {
                assert(rest.take(end - start) =~= text.subrange(start as int, end as int));
                assert(rest.skip(end - start + 1) =~= text.skip(next as int));
                assert(without_carriage_return(text.subrange(start as int, end as int))
                    =~= line);
            } else {
                assert(rest =~= line);
                assert(lines_of(text.skip(next as int)) =~= Seq::<Seq<char>>::empty());
            }
            assert(lines_of(rest) =~= seq![line] + lines_of(text.skip(next as int)));
            assert(seen + lines_of(rest) =~= seen.push(line) + lines_of(text.skip(next as int)));
            lemma_kept_lines_push(seen, line);
        }
        if !stands_in(&prelude, &chars, start, stop) {
            let word = text_between(&chars, start, stop);
            words = words.with(word);
        }
        proof {
            seen = seen.push(line);
        }
        start = next;
    }
    proof {
        assert(lines_of(text.skip(start as int)) =~= Seq::<Seq<char>>::empty());
        assert(seen + Seq::<Seq<char>>::empty() =~= seen);
    }
    words
}

/// Writes out the content of the dictionary file for `words` and `digest`.
pub fn text_of_file(words: &WordSet, digest: &Digest) -> (text: String)
    ensures
        text@ == file_text(words@, digest@),
{
    let mut text = canonical_lines(words);
    proof {
        reveal_strlit("checksum_v1 = ");
        assert(CHECKSUM_PRELUDE@ =~= checksum_prelude());
    }
    text.append(CHECKSUM_PRELUDE);
    let hex = digest.to_hex();
    text.append(hex.as_str());
    text
}

} // verus!
