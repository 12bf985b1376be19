use obsidian_dict_sync::checksum::{calculate_hash_digest, canonical_lines, Digest};
use obsidian_dict_sync::word_set::WordSet;

fn set_of(list: &[&str]) -> WordSet {
    WordSet::from_vec(list.iter().map(|w| w.to_string()).collect())
}

#[test]
fn checksum_reference_vector() {
    let set = set_of(&["b", "a"]);
    assert_eq!(canonical_lines(&set), "a\nb\n");
    let digest = calculate_hash_digest(&set);
    assert_eq!(digest.0, md5::compute(b"a\nb\n").0);
    assert_eq!(digest.to_hex(), "dd8c6a395b5dd36c56d23275028f526c");
}

#[test]
fn checksum_of_the_empty_set_is_the_digest_of_nothing() {
    let set = WordSet::new();
    assert_eq!(canonical_lines(&set), "");
    let digest = calculate_hash_digest(&set);
    assert_eq!(
        digest,
        Digest([212, 29, 140, 217, 143, 0, 178, 4, 233, 128, 9, 152, 236, 248, 66, 126])
    );
    assert_eq!(digest.to_hex(), "d41d8cd98f00b204e9800998ecf8427e");
}

#[test]
fn checksum_of_one_word_has_the_line_feed_in_it() {
    let digest = calculate_hash_digest(&set_of(&["a"]));
    assert_eq!(digest.to_hex(), "60b725f10c9c85c70d97880dfe8191b3");
}

#[test]
fn checksum_of_the_empty_word_alone() {
    let set = set_of(&[""]);
    assert_eq!(canonical_lines(&set), "\n");
    assert_eq!(
        calculate_hash_digest(&set).to_hex(),
        "68b329da9893e34099c7d8ad5cb9c940"
    );
}

#[test]
fn checksum_does_not_depend_on_the_order_given() {
    let a = calculate_hash_digest(&set_of(&["fox", "cat", "dog"]));
    let b = calculate_hash_digest(&set_of(&["dog", "fox", "cat"]));
    let c = calculate_hash_digest(&set_of(&["cat", "dog", "fox", "dog"]));
    assert_eq!(a, b);
    assert_eq!(a, c);
    assert_eq!(a.to_hex(), "9e45b2155df9af8b05332877652e5e63");
}

#[test]
fn checksum_is_taken_over_utf8_bytes_in_byte_order() {
    let set = set_of(&["zebra", "éclair", "apple", "Zebra"]);
    assert_eq!(canonical_lines(&set), "Zebra\napple\nzebra\néclair\n");
    assert_eq!(
        calculate_hash_digest(&set).to_hex(),
        "8eefe70e27d20316212e14b57a0e9d7f"
    );
}

#[test]
fn checksum_differs_where_the_words_differ() {
    let a = calculate_hash_digest(&set_of(&["cat", "dog"]));
    let b = calculate_hash_digest(&set_of(&["cat", "dog", "fox"]));
    assert_ne!(a, b);
    assert_eq!(a.to_hex(), "c9a689574e0e69c2933a7fead321993a");
}

#[test]
fn to_hex_is_lowercase_with_two_digits_for_each_byte() {
    let digest = Digest([
        0x00, 0x01, 0x0a, 0x0f, 0x10, 0x7f, 0x80, 0x9a, 0xab, 0xbc, 0xcd, 0xde, 0xef, 0xf0, 0xfe,
        0xff,
    ]);
    assert_eq!(digest.to_hex(), "00010a0f107f809aabbccddeeff0feff");
}

#[test]
fn to_hex_agrees_with_the_md5_crate() {
    let bytes = md5::compute(b"some words\n");
    assert_eq!(Digest(bytes.0).to_hex(), format!("{:x}", bytes));
}
