//! The conditions under which a word or a guess is turned down.

use vstd::prelude::*;

verus! {

/// Why an operation turned its input down. Neither condition leaves
/// anything behind: the caller may go on with the next word.
#[derive(Clone, Copy, Debug, PartialEq, Eq, Structural)]
pub enum WordError {
    /// The text holds a character outside `a` to `z`.
    InvalidCharacter,
    /// Guess and secret differ in length.
    LengthMismatch,
}

} // verus!
