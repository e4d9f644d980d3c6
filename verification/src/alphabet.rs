//! The alphabet that words are written in: the lowercase letters `a` to `z`.

use vstd::prelude::*;

verus! {

/// Number of letters in the alphabet.
pub const ALPHABET_SIZE: usize = 26;

/// Whether `c` is one of the lowercase letters `a` to `z`.
pub open spec fn is_letter(c: char) -> bool {
    'a' <= c <= 'z'
}

/// The position of `c` in the alphabet, counted from zero.
pub open spec fn letter_index(c: char) -> int {
    c as int - 'a' as int
}

/// The letter at position `slot` of the alphabet.
pub open spec fn letter_at(slot: int) -> char {
    (slot + 'a' as int) as char
}

/// Whether `text` is written in letters only. The empty text is.
pub open spec fn valid_word(text: Seq<char>) -> bool {
    forall|i: int| 0 <= i < text.len() ==> is_letter(#[trigger] text[i])
}

/// Positions and letters correspond one to one.
pub proof fn lemma_letter_slots()
    ensures
        forall|c: char|
            #[trigger] is_letter(c) ==> 0 <= letter_index(c) < ALPHABET_SIZE
                && letter_at(letter_index(c)) == c,
        forall|slot: int|
            0 <= slot < ALPHABET_SIZE ==> is_letter(#[trigger] letter_at(slot))
                && letter_index(letter_at(slot)) == slot,
{
}

/// The slot of `c` in a table with one entry per letter, or `None` where
/// `c` is no letter.
pub fn slot_of(c: char) -> (slot: Option<usize>)
    ensures
        is_letter(c) ==> slot == Some(letter_index(c) as usize),
        !is_letter(c) ==> slot is None,
{
    if 'a' <= c && c <= 'z' {
        Some(c as usize - 'a' as usize)
    } else {
        None
    }
}

/// The letter that stands at `slot` in the alphabet, or `None` where the
/// alphabet has no such slot.
pub fn letter_of(slot: usize) -> (letter: Option<char>)
    ensures
        slot < ALPHABET_SIZE ==> letter == Some(letter_at(slot as int)),
        slot >= ALPHABET_SIZE ==> letter is None,
{
    if slot < ALPHABET_SIZE {
        Some(('a' as u8 + slot as u8) as char)
    } else {
        None
    }
}

/// Whether `chars` holds letters only.
pub fn only_letters(chars: &Vec<char>) -> (ok: bool)
    ensures
        ok == valid_word(chars@),
{
    let mut i: usize = 0;
    while i < chars.len()
        invariant
            i <= chars.len(),
            valid_word(chars@.take(i as int)),
        decreases chars.len() - i,
    {
        if slot_of(chars[i]).is_none() {
            return false;
        }
        assert(chars@.take(i + 1) == chars@.take(i as int).push(chars@[i as int]));
        i += 1;
    }
    assert(chars@.take(i as int) == chars@);
    true
}

} // verus!
