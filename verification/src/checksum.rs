//! The checksum of a word set: the MD5 digest of its canonical text.

use vstd::prelude::*;
use vstd::string::StringExecFns;
use vstd::utf8::encode_utf8;
use crate::word_set::{
    canonical_order, lemma_listing_is_canonical, lists_in_order, views_of, WordSet,
};

verus! {

/// The MD5 digest (RFC 1321) of a byte string, as `md5::compute` computes it.
/// Nothing is stated of its value: the digest is taken from the `md5` crate.
pub uninterp spec fn md5_digest(data: Seq<u8>) -> Seq<u8>;

/// Calls `md5::compute` on `data` and hands back the sixteen bytes of the
/// digest it returns. The contract only gives that result its name: it is a
/// function of the bytes of `data` and of nothing else.
#[verifier::external_body]
fn md5_of(data: &[u8]) -> (digest: [u8; 16])
    ensures
        digest@ == md5_digest(data@),
{
    md5::compute(data).0
}

/// A 128-bit digest.
#[derive(Clone, Copy, Debug, PartialEq, Eq)]
pub struct Digest(pub [u8; 16]);

impl View for Digest {
    type V = Seq<u8>;

    open spec fn view(&self) -> Seq<u8> {
        self.0@
    }
}

/// The sixteen lowercase hexadecimal digits, by value.
pub open spec fn hex_digits() -> Seq<char> {
    seq!['0', '1', '2', '3', '4', '5', '6', '7', '8', '9', 'a', 'b', 'c', 'd', 'e', 'f']
}

/// The half of a byte that digit `i` of a hexadecimal rendering shows: the
/// high half at even positions, the low half at odd ones.
pub open spec fn nibble_at(bytes: Seq<u8>, i: int) -> int {
    if i % 2 == 0 {
        bytes[i / 2] as int / 16
    } else {
        bytes[i / 2] as int % 16
    }
}

/// Lowercase hexadecimal rendering: two digits for each byte, high half first.
pub open spec fn hex_text(bytes: Seq<u8>) -> Seq<char> {
    Seq::new(2 * bytes.len(), |i: int| hex_digits()[nibble_at(bytes, i)])
}

/// Each word followed by a line feed, in the order given.
pub open spec fn lines_text(words: Seq<Seq<char>>) -> Seq<char>
    decreases words.len(),
{
    if words.len() == 0 {
        Seq::empty()
    } else {
        lines_text(words.drop_last()) + words.last() + seq!['\n']
    }
}

/// The parts with `separator` between each two neighbours.
pub open spec fn joined(parts: Seq<Seq<char>>, separator: Seq<char>) -> Seq<char>
    decreases parts.len(),
{
    if parts.len() == 0 {
        Seq::empty()
    } else if parts.len() == 1 {
        parts[0]
    } else {
        joined(parts.drop_last(), separator) + separator + parts.last()
    }
}

/// Following each word by a line feed gives the same text as joining the
/// words and one empty text after them with line feeds.
pub proof fn lemma_lines_text_is_join(words: Seq<Seq<char>>)
    ensures
        lines_text(words) == joined(words.push(Seq::empty()), seq!['\n']),
    decreases words.len(),
{
    let nothing = Seq::<char>::empty();
    let feed = seq!['\n'];
    let padded = words.push(nothing);
    if words.len() == 0 {
        assert(joined(padded, feed) =~= lines_text(words));
    } else {
        let head = words.drop_last();
        lemma_lines_text_is_join(head);
        assert(padded.drop_last() =~= words);
        assert(joined(padded, feed) =~= joined(words, feed) + feed);
        if words.len() == 1 {
            assert(lines_text(head) =~= nothing);
            assert(lines_text(words) =~= words[0] + feed);
        } else {
            assert(head.push(nothing).drop_last() =~= head);
            assert(lines_text(head) =~= joined(head, feed) + feed);
            assert(lines_text(words) =~= joined(head, feed) + feed + words.last() + feed);
        }
    }
}

/// The text that is hashed for a set of words: its members in ascending
/// byte-wise order, each followed by a line feed.
pub open spec fn canonical_text(words: Set<Seq<char>>) -> Seq<char> {
    lines_text(canonical_order(words))
}

/// The checksum of a set of words: the MD5 digest of the UTF-8 encoding of
/// its canonical text.
pub open spec fn checksum_of(words: Set<Seq<char>>) -> Seq<u8> {
    md5_digest(encode_utf8(canonical_text(words)))
}

/// The checksum does not depend on the order in which the words are given:
/// two lists of words of which one is a rearrangement of the other have the
/// same checksum.
pub proof fn lemma_checksum_ignores_order(a: Seq<Seq<char>>, b: Seq<Seq<char>>)
    requires
        a.to_multiset() == b.to_multiset(),
    ensures
        checksum_of(a.to_set()) == checksum_of(b.to_set()),
{
    a.to_multiset_ensures();
    b.to_multiset_ensures();
    assert forall|word: Seq<char>| a.to_set().contains(word) == b.to_set().contains(word) by {
        assert(a.contains(word) <==> a.to_multiset().count(word) > 0);
        assert(b.contains(word) <==> b.to_multiset().count(word) > 0);
    }
    assert(a.to_set() =~= b.to_set());
}

/// The checksum of a set of words is the digest of the text of its one
/// ascending listing, whichever way that listing was arrived at.
pub proof fn lemma_checksum_of_listing(listing: Seq<Seq<char>>, words: Set<Seq<char>>)
    requires
        lists_in_order(listing, words),
    ensures
        checksum_of(words) == md5_digest(encode_utf8(lines_text(listing))),
{
    lemma_listing_is_canonical(listing, words);
}

fn hex_digit(nibble: u8) -> (digit: char)
    requires
        nibble < 16,
    ensures
        digit == hex_digits()[nibble as int],
{
    let digits: [char; 16] = [
        '0',
        '1',
        '2',
        '3',
        '4',
        '5',
        '6',
        '7',
        '8',
        '9',
        'a',
        'b',
        'c',
        'd',
        'e',
        'f',
    ];
    digits[nibble as usize]
}

impl Digest {
    /// The digest as 32 lowercase hexadecimal digits.
    pub fn to_hex(&self) -> (text: String)
        ensures
            text@ == hex_text(self@),
    {
        let mut text = String::new();
        let mut i: usize = 0;
        assert(hex_text(self@).take(0) =~= Seq::<char>::empty());
        while i < 16
            invariant
                i <= 16,
                self@.len() == 16,
                text@ == hex_text(self@).take(2 * i),
            decreases 16 - i,
        {
            let byte = self.0[i];
            let ghost shown = text@;
            text.push(hex_digit(byte / 16));
            text.push(hex_digit(byte % 16));
            proof {
                let whole = hex_text(self@);
                assert(nibble_at(self@, 2 * i) == byte as int / 16);
                assert(nibble_at(self@, 2 * i + 1) == byte as int % 16);
                assert(text@ =~= shown.push(whole[2 * i]).push(whole[2 * i + 1]));
                assert(text@ =~= whole.take(2 * (i + 1)));
            }
            i += 1;
        }
        assert(hex_text(self@).take(32) =~= hex_text(self@));
        text
    }
}

/// Writes out the members of `words` in ascending order, each followed by a
/// line feed.
pub fn canonical_lines(words: &WordSet) -> (text: String)
    ensures
        text@ == canonical_text(words@),
{
    let items = words.words();
    let ghost listed = views_of(items@);
    let mut text = String::new();
    let mut i: usize = 0;
    assert(listed.take(0) =~= Seq::<Seq<char>>::empty());
    while i < items.len()
        invariant
            i <= items.len(),
            listed == views_of(items@),
            text@ == lines_text(listed.take(i as int)),
        decreases items.len() - i,
    {
        let ghost written = text@;
        text.append(items[i].as_str());
        text.push('\n');
        proof {
            let upto = listed.take(i + 1);
            assert(upto.drop_last() =~= listed.take(i as int));
            assert(upto.last() == listed[i as int]);
            assert(text@ =~= written + listed[i as int] + seq!['\n']);
        }
        i += 1;
    }
    assert(listed.take(items.len() as int) =~= listed);
    text
}

/// The checksum of a set of words. It depends on the members of the set
/// alone, not on the order in which they were put in.
pub fn calculate_hash_digest(words: &WordSet) -> (digest: Digest)
    ensures
        digest@ == checksum_of(words@),
{
    let text = canonical_lines(words);
    Digest(md5_of(text.as_str().as_bytes()))
}

} // verus!
