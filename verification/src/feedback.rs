//! The feedback on a guess: one verdict per letter, with every occurrence
//! of a letter in the secret credited to at most one letter of the guess.
//!
//! Letters in the right place are settled first, over the whole guess. Only
//! what is then left of a letter in the secret can make a misplaced letter
//! of the guess count as present, in the order in which they stand.

use crate::alphabet::{
    is_letter, lemma_letter_slots, letter_at, only_letters, slot_of, valid_word, ALPHABET_SIZE,
};
use crate::error::WordError;
use crate::text::chars_of;
use vstd::prelude::*;

verus! {

/// What a letter of the guess is worth at its position.
#[derive(Clone, Copy, Debug, PartialEq, Eq, Structural)]
pub enum Verdict {
    /// The secret holds this letter at this position.
    Exact,
    /// The secret holds this letter elsewhere, and that occurrence is not
    /// claimed by a letter in the right place nor by an earlier one of the guess.
    Present,
    /// The secret does not hold this letter, or holds no more of it than
    /// have been claimed.
    Absent,
}

/// How often `c` stands among the first `upto` characters of `text`.
pub open spec fn occurrences(text: Seq<char>, c: char, upto: int) -> nat
    decreases upto,
{
    if upto <= 0 {
        0
    } else {
        occurrences(text, c, upto - 1) + if text[upto - 1] == c {
            1nat
        } else {
            0nat
        }
    }
}

/// At how many of the first `upto` positions both `a` and `b` hold `c`.
pub open spec fn matched(a: Seq<char>, b: Seq<char>, c: char, upto: int) -> nat
    decreases upto,
{
    if upto <= 0 {
        0
    } else {
        matched(a, b, c, upto - 1) + if a[upto - 1] == c && b[upto - 1] == c {
            1nat
        } else {
            0nat
        }
    }
}

/// At how many of the first `upto` positions `held` holds `c` while `other`
/// holds something else.
pub open spec fn unmatched(held: Seq<char>, other: Seq<char>, c: char, upto: int) -> nat
    decreases upto,
{
    if upto <= 0 {
        0
    } else {
        unmatched(held, other, c, upto - 1) + if held[upto - 1] == c && other[upto - 1] != c {
            1nat
        } else {
            0nat
        }
    }
}

/// The verdict on position `i` of `guess`. A letter out of place is present
/// as long as fewer letters like it stand out of place before it in the
/// guess than the secret holds out of place.
pub open spec fn verdict_at(secret: Seq<char>, guess: Seq<char>, i: int) -> Verdict {
    if guess[i] == secret[i] {
        Verdict::Exact
    } else if unmatched(guess, secret, guess[i], i) < unmatched(
        secret,
        guess,
        guess[i],
        secret.len() as int,
    ) {
        Verdict::Present
    } else {
        Verdict::Absent
    }
}

/// The feedback on `guess` against `secret`, a verdict for each position.
pub open spec fn feedback(secret: Seq<char>, guess: Seq<char>) -> Seq<Verdict> {
    Seq::new(guess.len(), |i: int| verdict_at(secret, guess, i))
}

/// The coloured square that shows `verdict`: green for a letter in its
/// place, yellow for one out of place, black for one that is absent.
pub open spec fn symbol_of(verdict: Verdict) -> char {
    match verdict {
        Verdict::Exact => '\u{1F7E9}',
        Verdict::Present => '\u{1F7E8}',
        Verdict::Absent => '\u{2B1B}',
    }
}

/// The row of squares that shows `verdicts`, one for each.
pub open spec fn rendered(verdicts: Seq<Verdict>) -> Seq<char> {
    Seq::new(verdicts.len(), |i: int| symbol_of(verdicts[i]))
}

/// Why no feedback is given on `guess` against `secret`, if none is: the
/// lengths are compared first, the letters then.
pub open spec fn feedback_error(secret: Seq<char>, guess: Seq<char>) -> Option<WordError> {
    if secret.len() != guess.len() {
        Some(WordError::LengthMismatch)
    } else if !valid_word(secret) || !valid_word(guess) {
        Some(WordError::InvalidCharacter)
    } else {
        None
    }
}

/// Whether `counts` holds, for each letter of the alphabet at its slot, how
/// often `text` holds it.
pub open spec fn is_histogram(counts: Seq<usize>, text: Seq<char>) -> bool {
    &&& counts.len() == ALPHABET_SIZE
    &&& forall|slot: int|
        0 <= slot < ALPHABET_SIZE ==> #[trigger] counts[slot] == occurrences(
            text,
            letter_at(slot),
            text.len() as int,
        )
}

/// Among `upto` characters none stands more than `upto` times.
pub proof fn lemma_occurrences_bounded(text: Seq<char>, c: char, upto: int)
    requires
        0 <= upto,
    ensures
        occurrences(text, c, upto) <= upto,
    decreases upto,
{
    if upto > 0 {
        lemma_occurrences_bounded(text, c, upto - 1);
    }
}

/// Every occurrence of `c` in `a` meets either `c` in `b` or something else.
pub proof fn lemma_occurrences_split(a: Seq<char>, b: Seq<char>, c: char, upto: int)
    ensures
        occurrences(a, c, upto) == matched(a, b, c, upto) + unmatched(a, b, c, upto),
    decreases upto,
{
    if upto > 0 {
        lemma_occurrences_split(a, b, c, upto - 1);
    }
}

/// Matches among fewer positions are matches among more.
pub proof fn lemma_matched_grows(a: Seq<char>, b: Seq<char>, c: char, fewer: int, more: int)
    requires
        fewer <= more,
    ensures
        matched(a, b, c, fewer) <= matched(a, b, c, more),
    decreases more - fewer,
{
    if fewer < more {
        lemma_matched_grows(a, b, c, fewer, more - 1);
    }
}

/// Matching is mutual.
pub proof fn lemma_matched_symmetric(a: Seq<char>, b: Seq<char>, c: char, upto: int)
    ensures
        matched(a, b, c, upto) == matched(b, a, c, upto),
    decreases upto,
{
    if upto > 0 {
        lemma_matched_symmetric(a, b, c, upto - 1);
    }
}

/// The histogram of `word`: 26 counters, one for each letter from `a` to
/// `z`, each holding how often `word` holds its letter. A word that holds
/// anything but letters has none.
pub fn get_histogram(word: &str) -> (outcome: Result<Vec<usize>, WordError>)
    ensures
        valid_word(word@) <==> outcome is Ok,
        outcome matches Ok(histogram) ==> is_histogram(histogram@, word@),
        outcome matches Err(e) ==> e == WordError::InvalidCharacter,
{
    let chars = chars_of(word);
    let mut histogram: Vec<usize> = vec![0usize; ALPHABET_SIZE];
    let mut i: usize = 0;
    while i < chars.len()
        invariant
            i <= chars.len(),
            chars@ == word@,
            histogram.len() == ALPHABET_SIZE,
            forall|j: int| 0 <= j < i ==> is_letter(#[trigger] chars@[j]),
            forall|slot: int|
                0 <= slot < ALPHABET_SIZE ==> #[trigger] histogram[slot] == occurrences(
                    chars@,
                    letter_at(slot),
                    i as int,
                ),
        decreases chars.len() - i,
    {
        match slot_of(chars[i]) {
            None => {
                return Err(WordError::InvalidCharacter);
            },
            Some(index) => {
                proof {
                    lemma_letter_slots();
                    lemma_occurrences_bounded(chars@, letter_at(index as int), i as int);
                }
                let count = histogram[index];
                histogram.set(index, count + 1);
            },
        }
        i += 1;
    }
    Ok(histogram)
}

/// The feedback on `guess` against `chosen_word`. Words of different length
/// are turned down as `LengthMismatch`; words of one length of which either
/// holds anything but letters, as `InvalidCharacter`.
pub fn get_feedback(chosen_word: &str, guess: &str) -> (outcome: Result<Vec<Verdict>, WordError>)
    ensures
        match outcome {
            Ok(verdicts) => feedback_error(chosen_word@, guess@) is None && verdicts@ == feedback(
                chosen_word@,
                guess@,
            ),
            Err(e) => feedback_error(chosen_word@, guess@) == Some(e),
        },
{
    let secret = chars_of(chosen_word);
    let attempt = chars_of(guess);
    if secret.len() != attempt.len() {
        return Err(WordError::LengthMismatch);
    }
    let mut budget = match get_histogram(chosen_word) {
        Ok(histogram) => histogram,
        Err(e) => {
            return Err(e);
        },
    };
    if !only_letters(&attempt) {
        return Err(WordError::InvalidCharacter);
    }
    let n = attempt.len();
    proof {
        lemma_letter_slots();
    }
    // Letters in the right place claim their occurrence first.
    let mut i: usize = 0;
    while i < n
        invariant
            i <= n,
            n == attempt.len(),
            n == secret.len(),
            valid_word(attempt@),
            budget.len() == ALPHABET_SIZE,
            forall|slot: int|
                0 <= slot < ALPHABET_SIZE ==> #[trigger] budget[slot] == occurrences(
                    secret@,
                    letter_at(slot),
                    n as int,
                ) - matched(secret@, attempt@, letter_at(slot), i as int),
        decreases n - i,
    {
        if attempt[i] == secret[i] {
            let slot = slot_of(attempt[i]).unwrap();
            proof {
                lemma_letter_slots();
                let c = letter_at(slot as int);
                lemma_occurrences_split(secret@, attempt@, c, n as int);
                lemma_matched_grows(secret@, attempt@, c, i + 1, n as int);
            }
            let left = budget[slot];
            budget.set(slot, left - 1);
        }
        i += 1;
    }
    proof {
        assert forall|slot: int| 0 <= slot < ALPHABET_SIZE implies #[trigger] budget[slot]
            == unmatched(secret@, attempt@, letter_at(slot), n as int) by {
            lemma_occurrences_split(secret@, attempt@, letter_at(slot), n as int);
        }
    }
    // What is left goes to the letters out of place, from the left.
    let mut verdicts: Vec<Verdict> = Vec::new();
    let mut i: usize = 0;
    while i < n
        invariant
            i <= n,
            n == attempt.len(),
            n == secret.len(),
            valid_word(attempt@),
            budget.len() == ALPHABET_SIZE,
            forall|slot: int|
                0 <= slot < ALPHABET_SIZE ==> #[trigger] budget[slot] as int == {
                    let spare = unmatched(secret@, attempt@, letter_at(slot), n as int);
                    let spent = unmatched(attempt@, secret@, letter_at(slot), i as int);
                    if spent < spare {
                        spare - spent
                    } else {
                        0
                    }
                },
            verdicts.len() == i,
            forall|j: int|
                0 <= j < i ==> #[trigger] verdicts[j] == verdict_at(secret@, attempt@, j),
        decreases n - i,
    {
        let slot = slot_of(attempt[i]).unwrap();
        let left = budget[slot];
        if attempt[i] == secret[i] {
            verdicts.push(Verdict::Exact);
        } else if left > 0 {
            verdicts.push(Verdict::Present);
            budget.set(slot, left - 1);
        } else {
            verdicts.push(Verdict::Absent);
        }
        i += 1;
    }
    assert(verdicts@ =~= feedback(secret@, attempt@));
    Ok(verdicts)
}

/// The coloured square that shows `verdict`.
pub fn symbol(verdict: Verdict) -> (square: char)
    ensures
        square == symbol_of(verdict),
{
    match verdict {
        Verdict::Exact => '\u{1F7E9}',
        Verdict::Present => '\u{1F7E8}',
        Verdict::Absent => '\u{2B1B}',
    }
}

/// The feedback as the player sees it: a row of coloured squares, one for
/// each letter of the guess.
pub fn render(verdicts: &Vec<Verdict>) -> (squares: String)
    ensures
        squares@ == rendered(verdicts@),
{
    let mut squares = String::new();
    let mut i: usize = 0;
    while i < verdicts.len()
        invariant
            i <= verdicts.len(),
            squares@ == rendered(verdicts@.take(i as int)),
        decreases verdicts.len() - i,
    {
        squares.push(symbol(verdicts[i]));
        assert(rendered(verdicts@.take(i + 1)) =~= rendered(verdicts@.take(i as int)).push(
            symbol_of(verdicts@[i as int]),
        ));
        i += 1;
    }
    assert(verdicts@.take(i as int) =~= verdicts@);
    squares
}

/// At how many of the first `upto` positions `guess` holds `c` and is given
/// another verdict than `Absent`.
pub open spec fn credited(secret: Seq<char>, guess: Seq<char>, c: char, upto: int) -> nat
    decreases upto,
{
    if upto <= 0 {
        0
    } else {
        credited(secret, guess, c, upto - 1) + if guess[upto - 1] == c && verdict_at(
            secret,
            guess,
            upto - 1,
        ) != Verdict::Absent {
            1nat
        } else {
            0nat
        }
    }
}

/// Among the first `upto` positions a letter is credited where it stands in
/// the right place, and out of place as often as it stands so in the guess,
/// up to what the secret holds of it out of place.
proof fn lemma_credited_so_far(secret: Seq<char>, guess: Seq<char>, c: char, upto: int)
    requires
        0 <= upto <= guess.len(),
        secret.len() == guess.len(),
    ensures
        credited(secret, guess, c, upto) == matched(secret, guess, c, upto) + {
            let spare = unmatched(secret, guess, c, secret.len() as int);
            let spent = unmatched(guess, secret, c, upto);
            if spent < spare {
                spent
            } else {
                spare
            }
        },
    decreases upto,
{
    if upto > 0 {
        lemma_credited_so_far(secret, guess, c, upto - 1);
    }
}

/// The guess gets credit for a letter, as `Exact` or `Present`, exactly as
/// often as both words hold it: as often as the guess holds it, but never
/// more often than the secret does.
pub proof fn lemma_credit_is_common_count(secret: Seq<char>, guess: Seq<char>, c: char)
    requires
        secret.len() == guess.len(),
    ensures
        credited(secret, guess, c, guess.len() as int) == {
            let in_secret = occurrences(secret, c, secret.len() as int);
            let in_guess = occurrences(guess, c, guess.len() as int);
            if in_guess < in_secret {
                in_guess
            } else {
                in_secret
            }
        },
{
    let n = guess.len() as int;
    lemma_credited_so_far(secret, guess, c, n);
    lemma_occurrences_split(secret, guess, c, n);
    lemma_occurrences_split(guess, secret, c, n);
    lemma_matched_symmetric(secret, guess, c, n);
}

/// A guess that is the secret is right at every position, and only such a
/// guess is.
pub proof fn lemma_all_exact_iff_same(secret: Seq<char>, guess: Seq<char>)
    requires
        secret.len() == guess.len(),
    ensures
        secret == guess <==> forall|i: int|
            0 <= i < guess.len() ==> #[trigger] feedback(secret, guess)[i] == Verdict::Exact,
{
    let verdicts = feedback(secret, guess);
    if forall|i: int| 0 <= i < guess.len() ==> #[trigger] verdicts[i] == Verdict::Exact {
        assert forall|i: int| 0 <= i < guess.len() implies secret[i] == guess[i] by {
            assert(verdicts[i] == Verdict::Exact);
        }
        assert(secret =~= guess);
    }
}

/// A letter that the secret does not hold is absent wherever the guess
/// holds it.
pub proof fn lemma_foreign_letter_absent(secret: Seq<char>, guess: Seq<char>, i: int)
    requires
        secret.len() == guess.len(),
        0 <= i < guess.len(),
        occurrences(secret, guess[i], secret.len() as int) == 0,
    ensures
        feedback(secret, guess)[i] == Verdict::Absent,
{
    lemma_occurrences_split(secret, guess, guess[i], secret.len() as int);
    if secret[i] == guess[i] {
        lemma_occurrence_found(secret, guess[i], secret.len() as int, i);
    }
}

/// A character that stands among the first `upto` of `text` is counted.
pub proof fn lemma_occurrence_found(text: Seq<char>, c: char, upto: int, at: int)
    requires
        0 <= at < upto,
        text[at] == c,
    ensures
        occurrences(text, c, upto) > 0,
    decreases upto,
{
    if at < upto - 1 {
        lemma_occurrence_found(text, c, upto - 1, at);
    }
}

} // verus!
