//! A dictionary file held in memory: its path, its words and their checksum.

use vstd::prelude::*;
use crate::checksum::{calculate_hash_digest, checksum_of, Digest};
use crate::codec::{file_text, text_of_file, words_from_text, words_in};
use crate::word_set::WordSet;

verus! {

/// What a [`UserDictionary`] stands for: the path of its file and, once it
/// holds words, the set of them and the checksum stored beside them.
pub struct DictionaryView {
    pub path: Seq<char>,
    pub words: Option<Set<Seq<char>>>,
    pub hash: Option<Seq<u8>>,
}

impl DictionaryView {
    /// A dictionary that holds no words yet.
    pub open spec fn unloaded(path: Seq<char>) -> DictionaryView {
        DictionaryView { path, words: None, hash: None }
    }

    /// A dictionary that holds `words`, with the checksum that belongs to
    /// them.
    pub open spec fn loaded(path: Seq<char>, words: Set<Seq<char>>) -> DictionaryView {
        DictionaryView { path, words: Some(words), hash: Some(checksum_of(words)) }
    }

    /// The words held, none where the dictionary holds no words yet.
    pub open spec fn words_or_empty(self) -> Set<Seq<char>> {
        match self.words {
            Some(words) => words,
            None => Set::empty(),
        }
    }

    /// The checksum is there exactly when the words are, and it is the
    /// checksum of those words.
    pub open spec fn consistent(self) -> bool {
        self.hash == match self.words {
            Some(words) => Some(checksum_of(words)),
            None => None,
        }
    }
}

/// The content that a file is to be overwritten with.
#[derive(Debug)]
pub struct FileWrite {
    pub path: String,
    pub content: String,
}

#[derive(Debug)]
enum Contents {
    Unloaded,
    Loaded { words: WordSet, hash: Digest },
}

/// A checksummed list of words, as desktop apps keep it for the words that a
/// user has added to their spelling dictionary: one word per line, and a
/// checksum of the words as the last line. The checksum always belongs to
/// the words held.
#[derive(Debug)]
pub struct UserDictionary {
    path: String,
    contents: Contents,
}

impl View for UserDictionary {
    type V = DictionaryView;

    closed spec fn view(&self) -> DictionaryView {
        match self.contents {
            Contents::Unloaded => DictionaryView::unloaded(self.path@),
            Contents::Loaded { words, hash } => DictionaryView {
                path: self.path@,
                words: Some(words@),
                hash: Some(hash@),
            },
        }
    }
}

impl UserDictionary {
    #[verifier::type_invariant]
    spec fn checksum_matches(&self) -> bool {
        match self.contents {
            Contents::Unloaded => true,
            Contents::Loaded { words, hash } => hash@ == checksum_of(words@),
        }
    }

    /// A dictionary for the file at `path` that holds no words yet.
    pub fn new(path: String) -> (dictionary: UserDictionary)
        ensures
            dictionary@ == DictionaryView::unloaded(path@),
    {
        UserDictionary { path, contents: Contents::Unloaded }
    }

    /// The dictionary of the file at `path`, whose content is `content`: its
    /// words are the lines of `content` but for the checksum lines, and its
    /// checksum is computed from those words, not read from the file.
    pub fn new_from_file_path(path: String, content: &str) -> (dictionary: UserDictionary)
        ensures
            dictionary@ == DictionaryView::loaded(path@, words_in(content@)),
    {
        let words = words_from_text(content);
        let hash = calculate_hash_digest(&words);
        UserDictionary { path, contents: Contents::Loaded { words, hash } }
    }

    /// The path of the file.
    pub fn path(&self) -> (path: &String)
        ensures
            path@ == self@.path,
    {
        &self.path
    }

    /// The words held, if any are.
    pub fn words(&self) -> (words: Option<&WordSet>)
        ensures
            match words {
                Some(held) => self@.words == Some(held@),
                None => self@.words is None,
            },
    {
        match &self.contents {
            Contents::Unloaded => None,
            Contents::Loaded { words, .. } => Some(words),
        }
    }

    /// The checksum of the words held, if any are.
    pub fn hash(&self) -> (hash: Option<Digest>)
        ensures
            self@.consistent(),
            match hash {
                Some(digest) => self@.hash == Some(digest@),
                None => self@.hash is None,
            },
    {
        proof {
            use_type_invariant(self);
        }
        match &self.contents {
            Contents::Unloaded => None,
            Contents::Loaded { hash, .. } => Some(*hash),
        }
    }

    /// Adds `words` to the words held and recomputes the checksum. A
    /// dictionary that held no words yet holds exactly `words` afterwards.
    pub fn add_words(&mut self, words: WordSet)
        ensures
            final(self)@ == DictionaryView::loaded(
                old(self)@.path,
                old(self)@.words_or_empty().union(words@),
            ),
            old(self)@.words_or_empty().subset_of(final(self)@.words_or_empty()),
            words@.subset_of(final(self)@.words_or_empty()),
            final(self)@.consistent(),
    {
        let merged = match &self.contents {
            Contents::Unloaded => {
                assert(Set::<Seq<char>>::empty().union(words@) =~= words@);
                words
            },
            Contents::Loaded { words: held, .. } => held.union(&words),
        };
        let hash = calculate_hash_digest(&merged);
        self.contents = Contents::Loaded { words: merged, hash };
    }

    /// Takes `words` out of the words held and recomputes the checksum. A
    /// dictionary that holds no words yet is left as it is; the result says
    /// whether there were words to take from.
    pub fn remove_words(&mut self, words: WordSet) -> (applied: bool)
        ensures
            applied == (old(self)@.words is Some),
            final(self)@ == match old(self)@.words {
                Some(held) => DictionaryView::loaded(old(self)@.path, held.difference(words@)),
                None => old(self)@,
            },
            final(self)@.words_or_empty().disjoint(words@),
            forall|word: Seq<char>|
                old(self)@.words_or_empty().contains(word) && !words@.contains(word)
                    ==> final(self)@.words_or_empty().contains(word),
            final(self)@.consistent(),
    {
        proof {
            use_type_invariant(&*self);
        }
        let left = match &self.contents {
            Contents::Unloaded => {
                return false;
            },
            Contents::Loaded { words: held, .. } => held.difference(&words),
        };
        let hash = calculate_hash_digest(&left);
        self.contents = Contents::Loaded { words: left, hash };
        true
    }

    /// Replaces the words held by `words` and recomputes the checksum.
    pub fn set_words(&mut self, words: WordSet)
        ensures
            final(self)@ == DictionaryView::loaded(old(self)@.path, words@),
            final(self)@.consistent(),
    {
        let hash = calculate_hash_digest(&words);
        self.contents = Contents::Loaded { words, hash };
    }

    /// What is to be written to the file of this dictionary: the words held
    /// in ascending order, one per line, and the checksum line. Nothing is
    /// to be written for a dictionary that holds no words yet.
    pub fn write_to_disk(&self) -> (write: Option<FileWrite>)
        ensures
            match write {
                Some(file) => self@.words matches Some(held) && file.path@ == self@.path
                    && file.content@ == file_text(held, checksum_of(held)),
                None => self@.words is None,
            },
    {
        proof {
            use_type_invariant(self);
        }
        match &self.contents {
            Contents::Unloaded => None,
            Contents::Loaded { words, hash } => Some(
                FileWrite { path: self.path.clone(), content: text_of_file(words, hash) },
            ),
        }
    }
}

} // verus!
