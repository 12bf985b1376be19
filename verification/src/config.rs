//! The configuration: where the dictionaries are, and which words to strike.

use vstd::prelude::*;
use crate::error::SyncError;
use crate::order::{compare_words, Rank};
use crate::word_set::{word_set_of, WordSet};

verus! {

/// The name of the dictionary that the others are brought in line with.
pub const AUTHORITATIVE: &'static str = "authoritative";

/// Words that are to be in no dictionary.
#[derive(Debug)]
pub struct Filters {
    pub remove: Vec<String>,
}

/// A dictionary file and the name it goes by.
#[derive(Debug)]
pub struct DictionaryEntry {
    pub name: String,
    pub path: String,
}

/// The whole configuration.
#[derive(Debug)]
pub struct Config {
    pub dictionaries: Vec<DictionaryEntry>,
    pub filters: Filters,
}

impl Filters {
    /// The words to strike, as a set.
    pub fn excluded(&self) -> (words: WordSet)
        ensures
            words@ == word_set_of(self.remove@),
    {
        WordSet::from_vec(self.remove.clone())
    }
}

impl Config {
    /// The entry at index `i` is the first one named `authoritative`.
    pub open spec fn authoritative_at(&self, i: int) -> bool {
        &&& 0 <= i < self.dictionaries@.len()
        &&& self.dictionaries@[i].name@ == AUTHORITATIVE@
        &&& forall|j: int| 0 <= j < i ==> self.dictionaries@[j].name@ != AUTHORITATIVE@
    }

    /// Some entry is named `authoritative`.
    pub open spec fn has_authoritative(&self) -> bool {
        exists|i: int| self.authoritative_at(i)
    }

    /// The path, as the configuration spells it, of the dictionary named
    /// `authoritative`; an error if no dictionary has that name.
    pub fn get_authoritative_dictionary_path(&self) -> (path: Result<String, SyncError>)
        ensures
            match path {
                Ok(raw) => exists|i: int|
                    self.authoritative_at(i) && raw@ == self.dictionaries@[i].path@,
                Err(error) => error == SyncError::MissingAuthoritative
                    && !self.has_authoritative(),
            },
    {
        let mut i: usize = 0;
        while i < self.dictionaries.len()
            invariant
                i <= self.dictionaries.len(),
                forall|j: int| 0 <= j < i ==> self.dictionaries@[j].name@ != AUTHORITATIVE@,
            decreases self.dictionaries.len() - i,
        {
            match compare_words(self.dictionaries[i].name.as_str(), AUTHORITATIVE) {
                Rank::Same => {
                    assert(self.authoritative_at(i as int));
                    return Ok(self.dictionaries[i].path.clone());
                },
                _ => {},
            }
            i += 1;
        }
        assert forall|k: int| !self.authoritative_at(k) by {}
        Err(SyncError::MissingAuthoritative)
    }
}

} // verus!
