//! Bringing the dictionaries in line with the authoritative one.

use vstd::prelude::*;
use crate::user_dictionary::{DictionaryView, UserDictionary};
use crate::word_set::WordSet;

verus! {

/// The dictionaries among `loads` that could be read, in the order given.
pub open spec fn loaded_of(loads: Seq<Option<UserDictionary>>) -> Seq<UserDictionary>
    decreases loads.len(),
{
    if loads.len() == 0 {
        Seq::empty()
    } else {
        match loads.last() {
            Some(dictionary) => loaded_of(loads.drop_last()).push(dictionary),
            None => loaded_of(loads.drop_last()),
        }
    }
}

/// The words of all the dictionaries in a list, taken together.
pub open spec fn all_words(dictionaries: Seq<UserDictionary>) -> Set<Seq<char>>
    decreases dictionaries.len(),
{
    if dictionaries.len() == 0 {
        Set::empty()
    } else {
        all_words(dictionaries.drop_last()).union(dictionaries.last()@.words_or_empty())
    }
}

/// The words that every dictionary holds after a run: those of the
/// authoritative dictionary and of every peer that could be read, but for
/// the excluded ones.
pub open spec fn reconciled(
    authoritative: Set<Seq<char>>,
    loads: Seq<Option<UserDictionary>>,
    excluded: Set<Seq<char>>,
) -> Set<Seq<char>> {
    authoritative.union(all_words(loaded_of(loads))).difference(excluded)
}

/// One run. `loads` holds, for each peer dictionary in turn, what was read
/// of it, or `None` where it could not be read. The words of every peer that
/// was read are added to the authoritative dictionary, then the excluded
/// words are struck from it, once, and the words that are left are given to
/// every peer that was read. Those peers are handed back in the order in
/// which they came; the others are left out, so that nothing is written to
/// their files. A dictionary that holds no words yet counts as one without
/// words.
pub fn synchronize(
    authoritative: &mut UserDictionary,
    loads: Vec<Option<UserDictionary>>,
    excluded: WordSet,
) -> (peers: Vec<UserDictionary>)
    ensures
        final(authoritative)@ == DictionaryView::loaded(
            old(authoritative)@.path,
            reconciled(old(authoritative)@.words_or_empty(), loads@, excluded@),
        ),
        peers@.len() == loaded_of(loads@).len(),
        forall|i: int|
            0 <= i < peers@.len() ==> (#[trigger] peers@[i])@ == DictionaryView::loaded(
                loaded_of(loads@)[i]@.path,
                reconciled(old(authoritative)@.words_or_empty(), loads@, excluded@),
            ),
        final(authoritative)@.words_or_empty().disjoint(excluded@),
        forall|i: int|
            0 <= i < peers@.len() ==> (#[trigger] peers@[i])@.words_or_empty().disjoint(
                excluded@,
            ),
{
    let ghost given = loads@;
    let ghost own = authoritative@.words_or_empty();
    let ghost path = authoritative@.path;
    if authoritative.words().is_none() {
        authoritative.add_words(WordSet::new());
        assert(own.union(Set::<Seq<char>>::empty()) =~= own);
    }
    let mut read: Vec<UserDictionary> = Vec::new();
    assert(given.take(0) =~= Seq::<Option<UserDictionary>>::empty());
    assert(own.union(all_words(read@)) =~= own);
    for load in it: loads
        invariant
            it.seq() == given,
            read@ == loaded_of(given.take(it.index())),
            authoritative@.path == path,
            authoritative@.words == Some(own.union(all_words(read@))),
    {
        let ghost upto = given.take(it.index() + 1);
        assert(upto.drop_last() =~= given.take(it.index()));
        assert(upto.last() == load);
        match load {
            Some(dictionary) => {
                let ghost before = read@;
                let ghost added = dictionary@.words_or_empty();
                match dictionary.words() {
                    Some(words) => {
                        authoritative.add_words(words.clone());
                    },
                    None => {
                        assert(own.union(all_words(before)).union(added) =~= own.union(
                            all_words(before),
                        ));
                    },
                }
                read.push(dictionary);
                proof {
                    assert(read@.drop_last() =~= before);
                    assert(read@.last() == dictionary);
                    assert(all_words(read@) == all_words(before).union(added));
                    assert(own.union(all_words(before)).union(added) =~= own.union(
                        all_words(read@),
                    ));
                }
            },
            None => {},
        }
    }
    assert(given.take(given.len() as int) =~= given);
    authoritative.remove_words(excluded);
    let ghost settled = reconciled(own, given, excluded@);
    let mut peers: Vec<UserDictionary> = Vec::new();
    for peer in it: read
        invariant
            it.seq() == loaded_of(given),
            authoritative@ == DictionaryView::loaded(path, settled),
            peers@.len() == it.index(),
            forall|i: int|
                0 <= i < peers@.len() ==> (#[trigger] peers@[i])@ == DictionaryView::loaded(
                    loaded_of(given)[i]@.path,
                    settled,
                ),
    {
        let mut peer = peer;
        match authoritative.words() {
            Some(words) => {
                peer.set_words(words.clone());
            },
            None => {},
        }
        peers.push(peer);
    }
    peers
}

} // verus!
