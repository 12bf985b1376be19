//! Keeps several custom spelling dictionaries, text files of one word per
//! line, in step with one authoritative word list.
//!
//! A run reads every dictionary, adds the words of all of them to the
//! authoritative one, strikes the words that the user wants in none, and
//! hands the result back to every dictionary that could be read. Each file
//! ends in a checksum line, the MD5 digest of its words in a fixed order, by
//! which the app that owns the file tells whether to trust it.
//!
//! Nothing here touches the file system: the caller reads the files and
//! writes them, and this library says what is in them.
//!
//! - [`order`]: the byte-wise order in which words are written and hashed.
//! - [`word_set`]: sets of words, with union and difference.
//! - [`checksum`]: the canonical text of a set of words and its digest.
//! - [`codec`]: the file format, read and written.
//! - [`user_dictionary`]: one dictionary file in memory.
//! - [`sync`]: one run over all the dictionaries.
//! - [`config`], [`paths`]: where the dictionaries are.

pub mod checksum;
pub mod codec;
pub mod config;
pub mod error;
pub mod order;
pub mod paths;
pub mod strings;
pub mod sync;
pub mod user_dictionary;
pub mod word_set;
