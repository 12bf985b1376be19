use obsidian_dict_sync::order::{compare_bytes, compare_words, Rank};
use obsidian_dict_sync::word_set::WordSet;

fn set_of(list: &[&str]) -> WordSet {
    WordSet::from_vec(list.iter().map(|w| w.to_string()).collect())
}

fn listed(set: &WordSet) -> Vec<&str> {
    set.words().iter().map(|w| w.as_str()).collect()
}

#[test]
fn compare_bytes_orders_position_by_position() {
    assert_eq!(compare_bytes(b"abc", b"abd"), Rank::Before);
    assert_eq!(compare_bytes(b"abd", b"abc"), Rank::After);
    assert_eq!(compare_bytes(b"abc", b"abc"), Rank::Same);
    assert_eq!(compare_bytes(b"", b""), Rank::Same);
}

#[test]
fn compare_bytes_puts_a_prefix_first() {
    assert_eq!(compare_bytes(b"ab", b"abc"), Rank::Before);
    assert_eq!(compare_bytes(b"abc", b"ab"), Rank::After);
    assert_eq!(compare_bytes(b"", b"a"), Rank::Before);
}

#[test]
fn compare_words_goes_by_utf8_bytes() {
    assert_eq!(compare_words("Zebra", "apple"), Rank::Before);
    assert_eq!(compare_words("zebra", "éclair"), Rank::Before);
    assert_eq!(compare_words("éclair", "zebra"), Rank::After);
    assert_eq!(compare_words("word", "word"), Rank::Same);
}

#[test]
fn compare_words_agrees_with_std_on_strings() {
    let samples = ["", "a", "A", "ab", "b", "ä", "日本", "z", "a\u{10000}", "a\u{ffff}"];
    for a in samples.iter() {
        for b in samples.iter() {
            let expected = match a.cmp(b) {
                std::cmp::Ordering::Less => Rank::Before,
                std::cmp::Ordering::Equal => Rank::Same,
                std::cmp::Ordering::Greater => Rank::After,
            };
            assert_eq!(compare_words(a, b), expected);
        }
    }
}

#[test]
fn new_set_is_empty() {
    let set = WordSet::new();
    assert_eq!(set.len(), 0);
    assert!(set.words().is_empty());
    assert!(!set.contains(""));
}

#[test]
fn from_vec_sorts_and_drops_duplicates() {
    let set = set_of(&["dog", "cat", "dog", "Cat", "fox", "cat"]);
    assert_eq!(listed(&set), vec!["Cat", "cat", "dog", "fox"]);
    assert_eq!(set.len(), 4);
}

#[test]
fn from_vec_does_not_depend_on_the_order_given() {
    let a = set_of(&["b", "c", "a"]);
    let b = set_of(&["c", "a", "b"]);
    let c = set_of(&["a", "b", "c", "a"]);
    assert_eq!(listed(&a), vec!["a", "b", "c"]);
    assert_eq!(listed(&a), listed(&b));
    assert_eq!(listed(&a), listed(&c));
}

#[test]
fn words_are_case_sensitive() {
    let set = set_of(&["Word", "word"]);
    assert_eq!(set.len(), 2);
    assert!(set.contains("Word"));
    assert!(set.contains("word"));
    assert!(!set.contains("WORD"));
}

#[test]
fn contains_finds_every_member_and_nothing_else() {
    let members = ["ant", "bee", "cow", "doe", "eel", "fly", "gnu"];
    let set = set_of(&members);
    for word in members.iter() {
        assert!(set.contains(word));
    }
    for word in ["", "a", "bed", "cox", "zebra", "gn", "gnus"].iter() {
        assert!(!set.contains(word));
    }
}

#[test]
fn with_adds_a_word_at_its_place() {
    let set = set_of(&["a", "c"]).with("b".to_string());
    assert_eq!(listed(&set), vec!["a", "b", "c"]);
    let set = set.with("0".to_string()).with("z".to_string());
    assert_eq!(listed(&set), vec!["0", "a", "b", "c", "z"]);
}

#[test]
fn with_leaves_a_set_that_has_the_word_as_it_is() {
    let set = set_of(&["a", "b"]).with("b".to_string());
    assert_eq!(listed(&set), vec!["a", "b"]);
}

#[test]
fn the_empty_word_is_a_word() {
    let set = set_of(&["b", "", "a"]);
    assert_eq!(listed(&set), vec!["", "a", "b"]);
    assert!(set.contains(""));
}

#[test]
fn union_holds_the_words_of_both() {
    let a = set_of(&["cat", "dog"]);
    let b = set_of(&["dog", "fox", "ant"]);
    assert_eq!(listed(&a.union(&b)), vec!["ant", "cat", "dog", "fox"]);
    assert_eq!(listed(&b.union(&a)), vec!["ant", "cat", "dog", "fox"]);
}

#[test]
fn union_with_the_empty_set_changes_nothing() {
    let a = set_of(&["cat", "dog"]);
    let none = WordSet::new();
    assert_eq!(listed(&a.union(&none)), vec!["cat", "dog"]);
    assert_eq!(listed(&none.union(&a)), vec!["cat", "dog"]);
    assert!(none.union(&none).words().is_empty());
}

#[test]
fn difference_takes_out_what_both_hold() {
    let a = set_of(&["ant", "cat", "dog", "fox"]);
    let b = set_of(&["dog", "ant", "yak"]);
    assert_eq!(listed(&a.difference(&b)), vec!["cat", "fox"]);
    assert_eq!(listed(&b.difference(&a)), vec!["yak"]);
}

#[test]
fn difference_with_the_empty_set_changes_nothing() {
    let a = set_of(&["cat", "dog"]);
    let none = WordSet::new();
    assert_eq!(listed(&a.difference(&none)), vec!["cat", "dog"]);
    assert!(none.difference(&a).words().is_empty());
    assert!(a.difference(&a).words().is_empty());
}

#[test]
fn clone_holds_the_same_words() {
    let a = set_of(&["cat", "dog"]);
    let b = a.clone();
    assert_eq!(listed(&a), listed(&b));
}
