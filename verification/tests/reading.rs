use word_guess::trie::Trie;
use word_guess::reading::{is_white_space, load_words, split_words, trim};

fn strings(words: &[&str]) -> Vec<String> {
    words.iter().map(|word| word.to_string()).collect()
}

#[test]
fn white_space_is_what_the_standard_library_calls_so() {
    for c in '\u{0}'..=char::MAX {
        assert_eq!(is_white_space(c), c.is_whitespace());
    }
}

#[test]
fn words_are_parted_by_white_space() {
    assert_eq!(split_words("dog cat cab"), strings(&["dog", "cat", "cab"]));
    assert_eq!(split_words("dog\tcat\ncab\r\n"), strings(&["dog", "cat", "cab"]));
}

#[test]
fn white_space_at_the_ends_and_in_runs_adds_no_word() {
    assert_eq!(split_words("  dog   cat  "), strings(&["dog", "cat"]));
    assert_eq!(split_words("\n\n dog \n\n"), strings(&["dog"]));
}

#[test]
fn text_without_words_has_none() {
    assert_eq!(split_words(""), Vec::<String>::new());
    assert_eq!(split_words(" "), Vec::<String>::new());
    assert_eq!(split_words(" \t\r\n\u{a0}\u{3000}"), Vec::<String>::new());
}

#[test]
fn text_without_white_space_is_one_word() {
    assert_eq!(split_words("apple"), strings(&["apple"]));
    assert_eq!(split_words("ca7-X\u{e9}"), strings(&["ca7-X\u{e9}"]));
}

#[test]
fn words_keep_whatever_is_no_white_space() {
    assert_eq!(
        split_words("ca7 Dog,cat \u{1F7E9}"),
        strings(&["ca7", "Dog,cat", "\u{1F7E9}"])
    );
}

#[test]
fn splitting_agrees_with_the_standard_library() {
    for text in [
        "",
        "apple",
        " apple",
        "apple ",
        "pearl apple  zesty\tmango\napply\r\nangle",
        "a\u{85}b\u{a0}c\u{1680}d\u{2000}e\u{200a}f\u{2028}g\u{2029}h\u{202f}i\u{205f}j\u{3000}k",
        "a\u{200b}b\u{180e}c\u{feff}d",
        "\u{b}x\u{c}y\u{1c}z\u{1f}",
    ] {
        let expected: Vec<String> = text.split_whitespace().map(|word| word.to_string()).collect();
        assert_eq!(split_words(text), expected);
    }
}

#[test]
fn loading_stores_the_words_of_a_line() {
    let mut trie = Trie::new();
    assert_eq!(load_words(&mut trie, "dog cat cab"), Vec::<String>::new());
    assert_eq!(trie.list_content(""), strings(&["cab", "cat", "dog"]));
}

#[test]
fn loading_adds_to_what_is_stored() {
    let mut trie = Trie::new();
    assert_eq!(load_words(&mut trie, "dog\n"), Vec::<String>::new());
    assert_eq!(load_words(&mut trie, "cat\n"), Vec::<String>::new());
    assert_eq!(load_words(&mut trie, "\n"), Vec::<String>::new());
    assert_eq!(load_words(&mut trie, "dog"), Vec::<String>::new());
    assert_eq!(trie.list_content(""), strings(&["cat", "dog"]));
}

#[test]
fn loading_hands_back_the_words_it_turned_down() {
    let mut trie = Trie::new();
    assert_eq!(
        load_words(&mut trie, "dog ca7 Cat cat d-g ca7"),
        strings(&["ca7", "Cat", "d-g", "ca7"])
    );
    assert_eq!(trie.list_content(""), strings(&["cat", "dog"]));
    assert!(!trie.contains("ca"));
    assert!(!trie.contains("d"));
}

#[test]
fn trimming_takes_the_white_space_off_both_ends() {
    assert_eq!(trim("  apple \n"), "apple");
    assert_eq!(trim("apple\r\n"), "apple");
    assert_eq!(trim("\t apple"), "apple");
    assert_eq!(trim("\u{a0}apple\u{3000}"), "apple");
}

#[test]
fn trimming_keeps_the_white_space_within() {
    assert_eq!(trim(" two words \n"), "two words");
    assert_eq!(trim("a \t b"), "a \t b");
}

#[test]
fn trimming_leaves_nothing_of_white_space() {
    assert_eq!(trim(""), "");
    assert_eq!(trim(" "), "");
    assert_eq!(trim(" \t\r\n "), "");
}

#[test]
fn trimming_keeps_a_text_without_white_space_at_its_ends() {
    assert_eq!(trim("apple"), "apple");
    assert_eq!(trim("a"), "a");
    assert_eq!(trim("ca7 \u{e9}"), "ca7 \u{e9}");
}

#[test]
fn trimming_agrees_with_the_standard_library() {
    for text in [
        "",
        " ",
        "apple",
        " apple",
        "apple ",
        "  pearl apple  \t",
        "\u{85}a\u{a0}b\u{1680}",
        "\u{2000}\u{200a}x y\u{2028}\u{2029}\u{202f}\u{205f}\u{3000}",
        "\u{200b}a\u{feff}",
    ] {
        assert_eq!(trim(text), text.trim());
    }
}
