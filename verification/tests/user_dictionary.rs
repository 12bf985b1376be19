use obsidian_dict_sync::checksum::{calculate_hash_digest, Digest};
use obsidian_dict_sync::user_dictionary::UserDictionary;
use obsidian_dict_sync::word_set::WordSet;

fn set_of(list: &[&str]) -> WordSet {
    WordSet::from_vec(list.iter().map(|w| w.to_string()).collect())
}

fn listed(dictionary: &UserDictionary) -> Vec<&str> {
    dictionary
        .words()
        .expect("the dictionary holds words")
        .words()
        .iter()
        .map(|w| w.as_str())
        .collect()
}

fn checksum_matches(dictionary: &UserDictionary) -> bool {
    match (dictionary.words(), dictionary.hash()) {
        (Some(words), Some(hash)) => hash == calculate_hash_digest(words),
        (None, None) => true,
        _ => false,
    }
}

#[test]
fn new_dictionary_holds_no_words() {
    let dictionary = UserDictionary::new("/tmp/words.txt".to_string());
    assert_eq!(dictionary.path(), "/tmp/words.txt");
    assert!(dictionary.words().is_none());
    assert!(dictionary.hash().is_none());
}

#[test]
fn dictionary_from_a_file_holds_its_words_and_their_checksum() {
    let dictionary = UserDictionary::new_from_file_path(
        "/tmp/words.txt".to_string(),
        "dog\ncat\nchecksum_v1 = 0123",
    );
    assert_eq!(dictionary.path(), "/tmp/words.txt");
    assert_eq!(listed(&dictionary), vec!["cat", "dog"]);
    assert_eq!(
        dictionary.hash().unwrap().to_hex(),
        "c9a689574e0e69c2933a7fead321993a"
    );
}

#[test]
fn dictionary_from_an_empty_file_holds_the_empty_set() {
    let dictionary = UserDictionary::new_from_file_path("/tmp/new.txt".to_string(), "");
    assert!(listed(&dictionary).is_empty());
    assert_eq!(
        dictionary.hash().unwrap().to_hex(),
        "d41d8cd98f00b204e9800998ecf8427e"
    );
}

#[test]
fn the_checksum_in_the_file_is_not_taken_over() {
    let dictionary = UserDictionary::new_from_file_path(
        "/tmp/words.txt".to_string(),
        "a\nb\nchecksum_v1 = ffffffffffffffffffffffffffffffff",
    );
    assert_eq!(
        dictionary.hash().unwrap().to_hex(),
        "dd8c6a395b5dd36c56d23275028f526c"
    );
}

#[test]
fn add_words_keeps_what_was_there_and_adds_what_is_new() {
    let mut dictionary =
        UserDictionary::new_from_file_path("/d".to_string(), "cat\ndog\n");
    dictionary.add_words(set_of(&["dog", "fox"]));
    assert_eq!(listed(&dictionary), vec!["cat", "dog", "fox"]);
    assert_eq!(dictionary.path(), "/d");
    assert_eq!(
        dictionary.hash().unwrap().to_hex(),
        "9e45b2155df9af8b05332877652e5e63"
    );
}

#[test]
fn add_words_of_nothing_changes_nothing() {
    let mut dictionary =
        UserDictionary::new_from_file_path("/d".to_string(), "cat\ndog\n");
    let before = dictionary.hash();
    dictionary.add_words(WordSet::new());
    assert_eq!(listed(&dictionary), vec!["cat", "dog"]);
    assert_eq!(dictionary.hash(), before);
}

#[test]
fn add_words_to_a_new_dictionary_gives_it_those_words() {
    let mut dictionary = UserDictionary::new("/d".to_string());
    dictionary.add_words(set_of(&["b", "a"]));
    assert_eq!(listed(&dictionary), vec!["a", "b"]);
    assert_eq!(
        dictionary.hash().unwrap().to_hex(),
        "dd8c6a395b5dd36c56d23275028f526c"
    );
}

#[test]
fn remove_words_takes_out_exactly_what_both_hold() {
    let mut dictionary =
        UserDictionary::new_from_file_path("/d".to_string(), "ant\ncat\ndog\nfox\n");
    let applied = dictionary.remove_words(set_of(&["ant", "fox", "yak"]));
    assert!(applied);
    assert_eq!(listed(&dictionary), vec!["cat", "dog"]);
    assert_eq!(
        dictionary.hash().unwrap().to_hex(),
        "c9a689574e0e69c2933a7fead321993a"
    );
}

#[test]
fn remove_words_of_nothing_changes_nothing() {
    let mut dictionary = UserDictionary::new_from_file_path("/d".to_string(), "cat\n");
    assert!(dictionary.remove_words(WordSet::new()));
    assert_eq!(listed(&dictionary), vec!["cat"]);
}

#[test]
fn remove_words_from_a_new_dictionary_does_nothing_and_says_so() {
    let mut dictionary = UserDictionary::new("/d".to_string());
    let applied = dictionary.remove_words(set_of(&["cat"]));
    assert!(!applied);
    assert!(dictionary.words().is_none());
    assert!(dictionary.hash().is_none());
    assert_eq!(dictionary.path(), "/d");
}

#[test]
fn set_words_replaces_what_was_there() {
    let mut dictionary =
        UserDictionary::new_from_file_path("/d".to_string(), "cat\ndog\n");
    dictionary.set_words(set_of(&["b", "a"]));
    assert_eq!(listed(&dictionary), vec!["a", "b"]);
    assert_eq!(
        dictionary.hash().unwrap().to_hex(),
        "dd8c6a395b5dd36c56d23275028f526c"
    );
    assert_eq!(dictionary.path(), "/d");
}

#[test]
fn set_words_on_a_new_dictionary_loads_it() {
    let mut dictionary = UserDictionary::new("/d".to_string());
    dictionary.set_words(WordSet::new());
    assert!(listed(&dictionary).is_empty());
    assert_eq!(
        dictionary.hash(),
        Some(Digest([
            212, 29, 140, 217, 143, 0, 178, 4, 233, 128, 9, 152, 236, 248, 66, 126
        ]))
    );
}

#[test]
fn checksum_matches_the_words_after_every_change() {
    let mut dictionary = UserDictionary::new("/d".to_string());
    assert!(checksum_matches(&dictionary));
    dictionary.add_words(set_of(&["one", "two"]));
    assert!(checksum_matches(&dictionary));
    dictionary.remove_words(set_of(&["two", "three"]));
    assert!(checksum_matches(&dictionary));
    dictionary.set_words(set_of(&["x", "y", "z"]));
    assert!(checksum_matches(&dictionary));
    dictionary.add_words(set_of(&["a"]));
    assert!(checksum_matches(&dictionary));
    dictionary.remove_words(set_of(&["a", "x", "y", "z"]));
    assert!(checksum_matches(&dictionary));
    assert!(listed(&dictionary).is_empty());
    dictionary.set_words(WordSet::new());
    assert!(checksum_matches(&dictionary));
}

#[test]
fn write_to_disk_gives_the_path_and_the_content_of_the_file() {
    let dictionary = UserDictionary::new_from_file_path(
        "/home/me/Custom Dictionary.txt".to_string(),
        "dog\ncat\n",
    );
    let write = dictionary.write_to_disk().unwrap();
    assert_eq!(write.path, "/home/me/Custom Dictionary.txt");
    assert_eq!(
        write.content,
        "cat\ndog\nchecksum_v1 = c9a689574e0e69c2933a7fead321993a"
    );
}

#[test]
fn what_is_written_reads_back_as_the_same_dictionary() {
    let mut dictionary = UserDictionary::new("/d".to_string());
    dictionary.set_words(set_of(&["fox", "cat", "dog"]));
    let write = dictionary.write_to_disk().unwrap();
    let again = UserDictionary::new_from_file_path(write.path, &write.content);
    assert_eq!(listed(&again), listed(&dictionary));
    assert_eq!(again.hash(), dictionary.hash());
    assert_eq!(again.path(), dictionary.path());
}

#[test]
fn nothing_is_written_for_a_dictionary_without_words() {
    let dictionary = UserDictionary::new("/d".to_string());
    assert!(dictionary.write_to_disk().is_none());
}
