//! The core of a word-guessing game.
//!
//! [`trie`] holds the dictionary, a prefix tree over the letters `a` to `z`
//! that stores words, finds them again and lists them in order.
//! [`feedback`] scores a guess against the secret, letter by letter, with
//! repeated letters credited no more often than the secret holds them.
//! [`reading`] takes the words of a text into the dictionary, and
//! [`game`] draws a secret and takes the guesses of one game.
//! [`alphabet`], [`text`] and [`order`] say what a letter is, what a string
//! holds and when one text comes before another.

pub mod alphabet;
pub mod error;
pub mod feedback;
pub mod game;
pub mod order;
pub mod reading;
pub mod text;
pub mod trie;

pub use error::WordError;
pub use feedback::{get_feedback, get_histogram, Verdict};
pub use game::{choose_secret, Game, Turn};
pub use trie::Trie;
