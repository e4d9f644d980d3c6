use word_guess::error::WordError;
use word_guess::trie::Trie;

fn dictionary_of(words: &[&str]) -> Trie {
    let mut trie = Trie::new();
    for word in words {
        assert_eq!(trie.insert(word), Ok(()));
    }
    trie
}

fn strings(words: &[&str]) -> Vec<String> {
    words.iter().map(|word| word.to_string()).collect()
}

#[test]
fn new_dictionary_holds_nothing() {
    let trie = Trie::new();
    assert_eq!(trie.list_content(""), Vec::<String>::new());
    assert!(!trie.contains(""));
    assert!(!trie.contains("a"));
    assert!(!trie.contains("cat"));
}

#[test]
fn inserted_word_is_found() {
    let mut trie = Trie::new();
    assert_eq!(trie.insert("cat"), Ok(()));
    assert!(trie.contains("cat"));
}

#[test]
fn inserted_word_stays_after_other_insertions() {
    let mut trie = dictionary_of(&["cat"]);
    for word in ["cab", "dog", "c", "catalog", "zebra", "a", "cat"] {
        assert_eq!(trie.insert(word), Ok(()));
        assert!(trie.contains("cat"));
        assert!(trie.contains(word));
    }
    for word in ["cab", "dog", "c", "catalog", "zebra", "a", "cat"] {
        assert!(trie.contains(word));
    }
}

#[test]
fn prefix_of_a_word_is_not_found() {
    let trie = dictionary_of(&["cat"]);
    assert!(!trie.contains("ca"));
    assert!(!trie.contains("c"));
    assert!(!trie.contains(""));
}

#[test]
fn prefix_is_found_once_inserted_itself() {
    let mut trie = dictionary_of(&["cat"]);
    assert!(!trie.contains("ca"));
    assert_eq!(trie.insert("ca"), Ok(()));
    assert!(trie.contains("ca"));
    assert!(trie.contains("cat"));
    assert!(!trie.contains("c"));
}

#[test]
fn longer_word_is_not_found() {
    let trie = dictionary_of(&["cat"]);
    assert!(!trie.contains("cats"));
    assert!(!trie.contains("catalog"));
}

#[test]
fn word_that_was_never_inserted_is_not_found() {
    let trie = dictionary_of(&["cat", "dog", "cab"]);
    assert!(!trie.contains("cow"));
    assert!(!trie.contains("bat"));
    assert!(!trie.contains("do"));
    assert!(!trie.contains("dot"));
    assert!(!trie.contains("zebra"));
}

#[test]
fn listing_is_sorted() {
    let trie = dictionary_of(&["dog", "cat", "cab"]);
    assert_eq!(trie.list_content(""), strings(&["cab", "cat", "dog"]));
}

#[test]
fn listing_names_a_word_once_when_inserted_twice() {
    let mut trie = dictionary_of(&["cat", "dog"]);
    let before = trie.list_content("");
    assert_eq!(trie.insert("cat"), Ok(()));
    assert_eq!(trie.list_content(""), before);
    assert_eq!(trie.list_content(""), strings(&["cat", "dog"]));
    assert!(trie.contains("cat"));
}

#[test]
fn listing_puts_a_word_before_its_extensions() {
    let trie = dictionary_of(&["cats", "ca", "cat", "c", "catalog"]);
    assert_eq!(
        trie.list_content(""),
        strings(&["c", "ca", "cat", "catalog", "cats"])
    );
}

#[test]
fn listing_puts_the_prefix_in_front_of_each_word() {
    let trie = dictionary_of(&["dog", "cat", "cab"]);
    assert_eq!(
        trie.list_content("re"),
        strings(&["recab", "recat", "redog"])
    );
    assert_eq!(
        trie.list_content("X-"),
        strings(&["X-cab", "X-cat", "X-dog"])
    );
}

#[test]
fn listing_equals_the_sorted_input_without_repeats() {
    let words = [
        "pearl", "apple", "zesty", "mango", "apply", "angle", "zebra", "quilt", "amber", "pear",
        "mango", "a", "zz", "az", "za", "apple", "quill", "m", "mang", "zzz",
    ];
    let trie = dictionary_of(&words);
    let mut expected = strings(&words);
    expected.sort();
    expected.dedup();
    assert_eq!(trie.list_content(""), expected);
    for word in words {
        assert!(trie.contains(word));
    }
}

#[test]
fn listing_covers_the_whole_alphabet() {
    let letters = [
        "z", "y", "x", "w", "v", "u", "t", "s", "r", "q", "p", "o", "n", "m", "l", "k", "j", "i",
        "h", "g", "f", "e", "d", "c", "b", "a",
    ];
    let trie = dictionary_of(&letters);
    let mut expected = strings(&letters);
    expected.reverse();
    assert_eq!(trie.list_content(""), expected);
}

#[test]
fn insert_turns_down_a_digit() {
    let mut trie = Trie::new();
    assert_eq!(trie.insert("ca7"), Err(WordError::InvalidCharacter));
}

#[test]
fn turned_down_word_leaves_nothing_behind() {
    let mut trie = dictionary_of(&["cat", "dog"]);
    assert_eq!(trie.insert("ca7"), Err(WordError::InvalidCharacter));
    assert_eq!(trie.insert("cow7"), Err(WordError::InvalidCharacter));
    assert_eq!(trie.list_content(""), strings(&["cat", "dog"]));
    assert!(!trie.contains("ca7"));
    assert!(!trie.contains("ca"));
    assert!(!trie.contains("cow"));
    assert!(!trie.contains("co"));
    assert!(trie.contains("cat"));
}

#[test]
fn insert_turns_down_whatever_is_no_lowercase_letter() {
    let mut trie = Trie::new();
    for word in [
        "Cat", "CAT", "ca t", " cat", "cat\n", "ca-t", "c`t", "c{t", "caf\u{e9}", "\u{df}", "7",
        "a\u{0}",  "\u{1F7E9}",
    ] {
        assert_eq!(trie.insert(word), Err(WordError::InvalidCharacter));
    }
    assert_eq!(trie.list_content(""), Vec::<String>::new());
}

#[test]
fn contains_is_false_for_texts_with_other_characters() {
    let trie = dictionary_of(&["cat", "dog"]);
    for word in [
        "ca7", "Cat", "CAT", "cat ", " cat", "c`t", "c{t", "caf\u{e9}", "\u{df}", "ca\u{0}",
        "\u{1F7E9}", "`", "{",
    ] {
        assert!(!trie.contains(word));
    }
}

#[test]
fn empty_word_can_be_stored() {
    let mut trie = dictionary_of(&["b", "a"]);
    assert!(!trie.contains(""));
    assert_eq!(trie.insert(""), Ok(()));
    assert!(trie.contains(""));
    assert_eq!(trie.list_content(""), strings(&["", "a", "b"]));
    assert_eq!(trie.list_content("x"), strings(&["x", "xa", "xb"]));
}

#[test]
fn long_word_is_stored_and_found() {
    let long = "abcdefghijklmnopqrstuvwxyz".repeat(20);
    let mut trie = Trie::new();
    assert_eq!(trie.insert(&long), Ok(()));
    assert!(trie.contains(&long));
    assert!(!trie.contains(&long[..long.len() - 1]));
    assert_eq!(trie.list_content(""), vec![long]);
}

#[test]
fn order_of_insertion_does_not_matter() {
    let one = dictionary_of(&["dog", "cat", "cab", "do"]);
    let other = dictionary_of(&["do", "cab", "dog", "cat"]);
    assert_eq!(one.list_content(""), other.list_content(""));
}
