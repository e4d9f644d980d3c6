use word_guess::error::WordError;
use word_guess::feedback::Verdict;
use word_guess::game::{choose_secret, Game, Turn};
use word_guess::trie::Trie;

fn dictionary_of(words: &[&str]) -> Trie {
    let mut trie = Trie::new();
    for word in words {
        assert_eq!(trie.insert(word), Ok(()));
    }
    trie
}

#[test]
fn new_game_has_played_no_round() {
    let game = Game::new("cat".to_string()).ok().unwrap();
    assert_eq!(game.secret(), "cat");
    assert_eq!(game.rounds(), 0);
    assert!(!game.is_won());
}

#[test]
fn secret_must_be_written_in_letters() {
    assert_eq!(
        Game::new("ca7".to_string()).err(),
        Some(WordError::InvalidCharacter)
    );
    assert_eq!(
        Game::new("Cat".to_string()).err(),
        Some(WordError::InvalidCharacter)
    );
}

#[test]
fn unknown_guess_uses_up_no_round() {
    let trie = dictionary_of(&["cat", "dog"]);
    let mut game = Game::new("cat".to_string()).ok().unwrap();
    assert_eq!(game.play(&trie, "cow"), Turn::Unknown);
    assert_eq!(game.play(&trie, "ca"), Turn::Unknown);
    assert_eq!(game.play(&trie, ""), Turn::Unknown);
    assert_eq!(game.play(&trie, "ca7"), Turn::Unknown);
    assert_eq!(game.rounds(), 0);
    assert!(!game.is_won());
}

#[test]
fn secret_itself_is_unknown_where_the_dictionary_lacks_it() {
    let trie = dictionary_of(&["dog"]);
    let mut game = Game::new("cat".to_string()).ok().unwrap();
    assert_eq!(game.play(&trie, "cat"), Turn::Unknown);
    assert_eq!(game.rounds(), 0);
    assert!(!game.is_won());
}

#[test]
fn guess_of_another_length_uses_up_no_round() {
    let trie = dictionary_of(&["cat", "mouse", "ox"]);
    let mut game = Game::new("cat".to_string()).ok().unwrap();
    assert_eq!(game.play(&trie, "mouse"), Turn::WrongLength);
    assert_eq!(game.play(&trie, "ox"), Turn::WrongLength);
    assert_eq!(game.rounds(), 0);
    assert!(!game.is_won());
}

#[test]
fn missed_guess_gets_feedback_and_uses_up_a_round() {
    let trie = dictionary_of(&["cat", "cow", "act"]);
    let mut game = Game::new("cat".to_string()).ok().unwrap();
    assert_eq!(
        game.play(&trie, "cow"),
        Turn::Missed(vec![Verdict::Exact, Verdict::Absent, Verdict::Absent])
    );
    assert_eq!(game.rounds(), 1);
    assert_eq!(
        game.play(&trie, "act"),
        Turn::Missed(vec![Verdict::Present, Verdict::Present, Verdict::Exact])
    );
    assert_eq!(game.rounds(), 2);
    assert!(!game.is_won());
    assert_eq!(game.secret(), "cat");
}

#[test]
fn naming_the_secret_wins() {
    let trie = dictionary_of(&["cat", "cow"]);
    let mut game = Game::new("cat".to_string()).ok().unwrap();
    assert_eq!(game.play(&trie, "cat"), Turn::Won);
    assert_eq!(game.rounds(), 1);
    assert!(game.is_won());
}

#[test]
fn rounds_count_the_guesses_that_were_taken() {
    let trie = dictionary_of(&["cat", "cow", "dog", "mouse"]);
    let mut game = Game::new("cat".to_string()).ok().unwrap();
    assert!(matches!(game.play(&trie, "dog"), Turn::Missed(_)));
    assert_eq!(game.play(&trie, "pig"), Turn::Unknown);
    assert!(matches!(game.play(&trie, "cow"), Turn::Missed(_)));
    assert_eq!(game.play(&trie, "mouse"), Turn::WrongLength);
    assert!(matches!(game.play(&trie, "dog"), Turn::Missed(_)));
    assert_eq!(game.play(&trie, "cat"), Turn::Won);
    assert_eq!(game.rounds(), 4);
}

#[test]
fn won_game_takes_no_more_guesses() {
    let trie = dictionary_of(&["cat", "cow"]);
    let mut game = Game::new("cat".to_string()).ok().unwrap();
    assert_eq!(game.play(&trie, "cat"), Turn::Won);
    assert_eq!(game.play(&trie, "cow"), Turn::Over);
    assert_eq!(game.play(&trie, "cat"), Turn::Over);
    assert_eq!(game.play(&trie, "pig"), Turn::Over);
    assert_eq!(game.rounds(), 1);
    assert!(game.is_won());
}

#[test]
fn empty_dictionary_has_no_secret() {
    let trie = Trie::new();
    assert_eq!(choose_secret(&trie), None);
    assert!(Game::start(&trie).is_none());
}

#[test]
fn only_word_is_the_secret() {
    let trie = dictionary_of(&["cat"]);
    for _ in 0..20 {
        assert_eq!(choose_secret(&trie), Some("cat".to_string()));
    }
    let game = Game::start(&trie).unwrap();
    assert_eq!(game.secret(), "cat");
    assert_eq!(game.rounds(), 0);
    assert!(!game.is_won());
}

#[test]
fn secret_is_a_word_of_the_dictionary() {
    let words = ["pearl", "apple", "zesty", "mango", "apply", "angle", "zebra"];
    let trie = dictionary_of(&words);
    for _ in 0..200 {
        let secret = choose_secret(&trie).unwrap();
        assert!(trie.contains(&secret));
        assert!(words.contains(&secret.as_str()));
    }
}

#[test]
fn every_word_can_become_the_secret() {
    let trie = dictionary_of(&["cat", "dog"]);
    let mut cat = false;
    let mut dog = false;
    for _ in 0..400 {
        match choose_secret(&trie).unwrap().as_str() {
            "cat" => cat = true,
            "dog" => dog = true,
            other => panic!("{} is no word of the dictionary", other),
        }
    }
    assert!(cat && dog);
}

#[test]
fn started_game_can_be_won_with_its_secret() {
    let trie = dictionary_of(&["pearl", "apple", "zesty"]);
    let mut game = Game::start(&trie).unwrap();
    let secret = game.secret().to_string();
    assert!(trie.contains(&secret));
    assert_eq!(game.play(&trie, &secret), Turn::Won);
    assert!(game.is_won());
    assert_eq!(game.rounds(), 1);
}
