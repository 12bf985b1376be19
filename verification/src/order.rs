//! Byte-wise lexicographic order on words.
//!
//! Words are ordered by the bytes of their UTF-8 encoding, which is the order
//! in which they appear in a dictionary file and in the text that is hashed.

use vstd::prelude::*;
use vstd::utf8::{decode_utf8, encode_utf8, encode_utf8_decode_utf8};

verus! {

/// `a` and `b` agree on their first `k` bytes, and at position `k` either `a`
/// ends while `b` goes on, or `a` holds the smaller byte.
pub open spec fn first_difference(a: Seq<u8>, b: Seq<u8>, k: int) -> bool {
    &&& 0 <= k <= a.len()
    &&& k < b.len()
    &&& forall|j: int| 0 <= j < k ==> a[j] == b[j]
    &&& (k < a.len() ==> a[k] < b[k])
}

/// `a` comes strictly before `b` when the two byte strings are compared
/// position by position, a proper prefix coming before any of its extensions.
pub open spec fn bytes_lt(a: Seq<u8>, b: Seq<u8>) -> bool {
    exists|k: int| #[trigger] first_difference(a, b, k)
}

/// Strict order on words: the byte-wise order of their UTF-8 encodings.
pub open spec fn word_lt(a: Seq<char>, b: Seq<char>) -> bool {
    bytes_lt(encode_utf8(a), encode_utf8(b))
}

/// Every element comes strictly before all later ones. A sequence in this
/// shape holds no word twice.
pub open spec fn strictly_ascending(words: Seq<Seq<char>>) -> bool {
    forall|i: int, j: int|
        0 <= i < j < words.len() ==> word_lt(#[trigger] words[i], #[trigger] words[j])
}

/// How one value stands to another in a total order.
#[derive(Clone, Copy, Debug, PartialEq, Eq)]
pub enum Rank {
    Before,
    Same,
    After,
}

/// No byte string comes before itself, and two byte strings are never each
/// before the other.
pub proof fn lemma_bytes_lt_asymmetric(a: Seq<u8>, b: Seq<u8>)
    requires
        bytes_lt(a, b),
    ensures
        !bytes_lt(b, a),
        a != b,
{
    let k1 = choose|k: int| first_difference(a, b, k);
    if bytes_lt(b, a) {
        let k2 = choose|k: int| first_difference(b, a, k);
        if k1 < k2 {
            assert(b[k1] == a[k1]);
        } else if k2 < k1 {
            assert(a[k2] == b[k2]);
        }
        assert(false);
    }
    if a == b {
        assert(false);
    }
}

/// The byte-wise order is transitive.
pub proof fn lemma_bytes_lt_transitive(a: Seq<u8>, b: Seq<u8>, c: Seq<u8>)
    requires
        bytes_lt(a, b),
        bytes_lt(b, c),
    ensures
        bytes_lt(a, c),
{
    let k1 = choose|k: int| first_difference(a, b, k);
    let k2 = choose|k: int| first_difference(b, c, k);
    let k = if k1 <= k2 { k1 } else { k2 };
    assert forall|j: int| 0 <= j < k implies a[j] == c[j] by {
        assert(a[j] == b[j]);
        assert(b[j] == c[j]);
    }
    if k < a.len() {
        if k1 < k2 {
            assert(b[k1] == c[k1]);
        } else if k2 < k1 {
            assert(a[k2] == b[k2]);
        }
    }
    assert(first_difference(a, c, k));
}

/// Two byte strings are equal, or one of them comes before the other.
pub proof fn lemma_bytes_lt_total(a: Seq<u8>, b: Seq<u8>)
    ensures
        a == b || bytes_lt(a, b) || bytes_lt(b, a),
    decreases a.len(),
{
    if a.len() == 0 {
        if b.len() == 0 {
            assert(a =~= b);
        } else {
            assert(first_difference(a, b, 0));
        }
    } else if b.len() == 0 {
        assert(first_difference(b, a, 0));
    } else if a[0] < b[0] {
        assert(first_difference(a, b, 0));
    } else if b[0] < a[0] {
        assert(first_difference(b, a, 0));
    } else {
        let ta = a.drop_first();
        let tb = b.drop_first();
        lemma_bytes_lt_total(ta, tb);
        if ta == tb {
            assert(a =~= seq![a[0]] + ta);
            assert(b =~= seq![b[0]] + tb);
        } else if bytes_lt(ta, tb) {
            let k = choose|k: int| first_difference(ta, tb, k);
            assert forall|j: int| 0 <= j < k + 1 implies a[j] == b[j] by {
                if j > 0 {
                    assert(ta[j - 1] == tb[j - 1]);
                }
            }
            if k < ta.len() {
                assert(ta[k] == a[k + 1] && tb[k] == b[k + 1]);
            }
            assert(first_difference(a, b, k + 1));
        } else {
            let k = choose|k: int| first_difference(tb, ta, k);
            assert forall|j: int| 0 <= j < k + 1 implies b[j] == a[j] by {
                if j > 0 {
                    assert(tb[j - 1] == ta[j - 1]);
                }
            }
            if k < tb.len() {
                assert(tb[k] == b[k + 1] && ta[k] == a[k + 1]);
            }
            assert(first_difference(b, a, k + 1));
        }
    }
}

/// A word never comes before itself, and two words are never each before
/// the other.
pub proof fn lemma_word_lt_asymmetric(a: Seq<char>, b: Seq<char>)
    requires
        word_lt(a, b),
    ensures
        !word_lt(b, a),
        a != b,
{
    lemma_bytes_lt_asymmetric(encode_utf8(a), encode_utf8(b));
}

/// The order on words is transitive.
pub proof fn lemma_word_lt_transitive(a: Seq<char>, b: Seq<char>, c: Seq<char>)
    requires
        word_lt(a, b),
        word_lt(b, c),
    ensures
        word_lt(a, c),
{
    lemma_bytes_lt_transitive(encode_utf8(a), encode_utf8(b), encode_utf8(c));
}

/// Two words with the same UTF-8 encoding are the same word.
pub proof fn lemma_encoding_injective(a: Seq<char>, b: Seq<char>)
    requires
        encode_utf8(a) == encode_utf8(b),
    ensures
        a == b,
{
    encode_utf8_decode_utf8(a);
    encode_utf8_decode_utf8(b);
    assert(decode_utf8(encode_utf8(a)) == a);
    assert(decode_utf8(encode_utf8(b)) == b);
}

/// Two words are equal, or one of them comes before the other.
pub proof fn lemma_word_lt_total(a: Seq<char>, b: Seq<char>)
    ensures
        a == b || word_lt(a, b) || word_lt(b, a),
{
    lemma_bytes_lt_total(encode_utf8(a), encode_utf8(b));
    if encode_utf8(a) == encode_utf8(b) {
        lemma_encoding_injective(a, b);
    }
}

/// Compares two byte strings position by position.
pub fn compare_bytes(a: &[u8], b: &[u8]) -> (rank: Rank)
    ensures
        rank is Before <==> bytes_lt(a@, b@),
        rank is After <==> bytes_lt(b@, a@),
        rank is Same <==> a@ == b@,
{
    let mut i: usize = 0;
    let mut rank = Rank::Same;
    let mut decided = false;
    while !decided && i < a.len() && i < b.len()
        invariant
            i <= a.len(),
            i <= b.len(),
            forall|j: int| 0 <= j < i ==> a@[j] == b@[j],
            !decided ==> rank is Same,
            decided ==> (rank is Before && first_difference(a@, b@, i as int))
                || (rank is After && first_difference(b@, a@, i as int)),
        decreases a.len() - i + (if decided { 0int } else { 1int }),
    {
        if a[i] < b[i] {
            rank = Rank::Before;
            decided = true;
        } else if a[i] > b[i] {
            rank = Rank::After;
            decided = true;
        } else {
            i += 1;
        }
    }
    if !decided {
        if i < b.len() {
            rank = Rank::Before;
            assert(first_difference(a@, b@, i as int));
        } else if i < a.len() {
            rank = Rank::After;
            assert(first_difference(b@, a@, i as int));
        } else {
            assert(a@ =~= b@);
        }
    }
    proof {
        if bytes_lt(a@, b@) {
            lemma_bytes_lt_asymmetric(a@, b@);
        }
        if bytes_lt(b@, a@) {
            lemma_bytes_lt_asymmetric(b@, a@);
        }
    }
    rank
}

/// Compares two words by the bytes of their UTF-8 encodings.
pub fn compare_words(a: &str, b: &str) -> (rank: Rank)
    ensures
        rank is Before <==> word_lt(a@, b@),
        rank is After <==> word_lt(b@, a@),
        rank is Same <==> a@ == b@,
{
    let rank = compare_bytes(a.as_bytes(), b.as_bytes());
    proof {
        if encode_utf8(a@) == encode_utf8(b@) {
            lemma_encoding_injective(a@, b@);
        }
    }
    rank
}

} // verus!
