//! One game: a secret word drawn from the dictionary, and the rounds in
//! which the player tries to name it.
//!
//! The game decides; it neither reads nor prints. Whoever runs it hands over
//! each guess and shows the player what comes back.

use crate::alphabet::{only_letters, valid_word};
use crate::error::WordError;
use crate::feedback::{feedback, get_feedback, Verdict};
use crate::text::{chars_of, texts};
use crate::trie::Trie;
use rand::rngs::ThreadRng;
use rand::seq::SliceRandom;
use vstd::prelude::*;

verus! {

/// The random number generator of the crate rand that each thread has for
/// itself. Nothing is known of what it holds.
#[verifier::external_type_specification]
#[verifier::external_body]
pub struct ExThreadRng(rand::rngs::ThreadRng);

/// `rand::thread_rng`, which hands out the calling thread's generator. It
/// takes no input and nothing is claimed of the generator. Where the
/// operating system gives the generator no seed, rand stops the program.
pub assume_specification[ rand::thread_rng ]() -> (rng: ThreadRng)
;

/// `SliceRandom::choose` of the crate rand, on the slice of `words`: `None`
/// for an empty slice, else a reference to the entry at an index that `rng`
/// drew below the slice's length. Which entry that is, is not said.
#[verifier::external_body]
fn pick_one<'a>(words: &'a Vec<String>, rng: &mut ThreadRng) -> (picked: Option<&'a String>)
    ensures
        words@.len() == 0 ==> picked is None,
        words@.len() > 0 ==> picked is Some && words@.contains(*picked->0),
{
    words.choose(rng)
}

/// Draws a secret at random from the words of `dictionary`. An empty
/// dictionary has none to give; any other gives one of its words.
pub fn choose_secret(dictionary: &Trie) -> (secret: Option<String>)
    ensures
        secret is None <==> dictionary@ == Set::<Seq<char>>::empty(),
        secret matches Some(word) ==> dictionary@.contains(word@),
{
    let words = dictionary.list_content("");
    proof {
        reveal_strlit("");
    }
    let mut rng = rand::thread_rng();
    match pick_one(&words, &mut rng) {
        Some(word) => {
            proof {
                let i = words@.index_of(*word);
                assert(texts(words@)[i] == word@);
                assert(texts(words@).to_set().contains(word@));
            }
            Some(word.clone())
        },
        None => {
            assert(texts(words@).to_set() =~= Set::<Seq<char>>::empty());
            None
        },
    }
}

/// What a game is at a given moment.
pub struct GameState {
    /// The word to be guessed.
    pub secret: Seq<char>,
    /// The guesses that counted so far.
    pub rounds: nat,
    /// Whether the secret has been named.
    pub won: bool,
}

/// Whether `guess` counts as a round: the game is still on, the dictionary
/// knows the guess, and it is as long as the secret.
pub open spec fn counts(state: GameState, dictionary: Set<Seq<char>>, guess: Seq<char>) -> bool {
    !state.won && dictionary.contains(guess) && guess.len() == state.secret.len()
}

/// The game after `guess` was made in `state`: a guess that counts uses up
/// a round and wins where it names the secret; any other leaves the game as
/// it is.
pub open spec fn after_guess(
    state: GameState,
    dictionary: Set<Seq<char>>,
    guess: Seq<char>,
) -> GameState {
    if counts(state, dictionary, guess) {
        GameState { secret: state.secret, rounds: state.rounds + 1, won: guess == state.secret }
    } else {
        state
    }
}

/// What the player is told after a guess.
#[derive(Debug, PartialEq, Eq)]
pub enum Turn {
    /// The game was won before; the guess was not looked at.
    Over,
    /// The dictionary does not know the guess. No round is used up.
    Unknown,
    /// The guess is a word, but not of the secret's length. No round is
    /// used up.
    WrongLength,
    /// The guess is not the secret; the feedback on it.
    Missed(Vec<Verdict>),
    /// The guess is the secret.
    Won,
}

/// Whether `turn` is what the player is to be told when `guess` is made in
/// `state`.
pub open spec fn answers(
    turn: Turn,
    state: GameState,
    dictionary: Set<Seq<char>>,
    guess: Seq<char>,
) -> bool {
    match turn {
        Turn::Over => state.won,
        Turn::Unknown => !state.won && !dictionary.contains(guess),
        Turn::WrongLength => !state.won && dictionary.contains(guess) && guess.len()
            != state.secret.len(),
        Turn::Missed(verdicts) => counts(state, dictionary, guess) && guess != state.secret
            && verdicts@ == feedback(state.secret, guess),
        Turn::Won => counts(state, dictionary, guess) && guess == state.secret,
    }
}

/// A game in progress.
pub struct Game {
    secret: String,
    rounds: u64,
    won: bool,
}

impl View for Game {
    type V = GameState;

    closed spec fn view(&self) -> GameState {
        GameState { secret: self.secret@, rounds: self.rounds as nat, won: self.won }
    }
}

impl Game {
    /// The secret is written in letters only.
    #[verifier::type_invariant]
    spec fn well_formed(&self) -> bool {
        valid_word(self.secret@)
    }

    /// A game about `secret`, with no round played. A secret that holds
    /// anything but letters is turned down.
    pub fn new(secret: String) -> (outcome: Result<Game, WordError>)
        ensures
            valid_word(secret@) <==> outcome is Ok,
            outcome matches Ok(game) ==> game@ == (GameState {
                secret: secret@,
                rounds: 0,
                won: false,
            }),
            outcome matches Err(e) ==> e == WordError::InvalidCharacter,
    {
        let chars = chars_of(secret.as_str());
        if !only_letters(&chars) {
            return Err(WordError::InvalidCharacter);
        }
        Ok(Game { secret, rounds: 0, won: false })
    }

    /// A game about a secret drawn at random from `dictionary`, or `None`
    /// where the dictionary is empty.
    pub fn start(dictionary: &Trie) -> (outcome: Option<Game>)
        ensures
            outcome is None <==> dictionary@ == Set::<Seq<char>>::empty(),
            outcome matches Some(game) ==> (dictionary@.contains(game@.secret)
                && game@.rounds == 0 && !game@.won),
    {
        match choose_secret(dictionary) {
            None => None,
            Some(secret) => {
                proof {
                    dictionary.lemma_stored_words_valid();
                }
                match Game::new(secret) {
                    Ok(game) => Some(game),
                    Err(_) => None,
                }
            },
        }
    }

    /// The word to be guessed.
    pub fn secret(&self) -> (secret: &str)
        ensures
            secret@ == self@.secret,
    {
        self.secret.as_str()
    }

    /// The number of guesses that counted so far.
    pub fn rounds(&self) -> (rounds: u64)
        ensures
            rounds == self@.rounds,
    {
        self.rounds
    }

    /// Whether the secret has been named.
    pub fn is_won(&self) -> (won: bool)
        ensures
            won == self@.won,
    {
        self.won
    }

    /// Takes one guess. Once the game is won no guess is looked at. A guess
    /// that the dictionary does not know, or that is not as long as the
    /// secret, is turned down and uses up no round. Any other guess uses up
    /// a round: the secret wins the game, another word gets its feedback.
    pub fn play(&mut self, dictionary: &Trie, guess: &str) -> (turn: Turn)
        requires
            old(self)@.rounds < u64::MAX,
        ensures
            final(self)@ == after_guess(old(self)@, dictionary@, guess@),
            answers(turn, old(self)@, dictionary@, guess@),
    {
        proof {
            use_type_invariant(&*self);
            dictionary.lemma_stored_words_valid();
        }
        if self.won {
            return Turn::Over;
        }
        if !dictionary.contains(guess) {
            return Turn::Unknown;
        }
        match get_feedback(self.secret.as_str(), guess) {
            Err(_) => Turn::WrongLength,
            Ok(verdicts) => {
                self.rounds = self.rounds + 1;
                if guess.to_string() == self.secret {
                    self.won = true;
                    Turn::Won
                } else {
                    Turn::Missed(verdicts)
                }
            },
        }
    }
}

} // verus!
