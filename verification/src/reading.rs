//! What is read from outside: the words of a list, which white space parts
//! from one another, and a guess, which comes with white space around it.

use crate::alphabet::valid_word;
use crate::text::{chars_of, texts};
use crate::trie::{inserted_all, Trie};
use vstd::prelude::*;

verus! {

/// Whether `c` is white space, which parts words: the characters that
/// Unicode gives the property White_Space.
pub open spec fn is_space(c: char) -> bool {
    ||| '\u{9}' <= c <= '\u{d}'
    ||| c == ' '
    ||| c == '\u{85}'
    ||| c == '\u{a0}'
    ||| c == '\u{1680}'
    ||| '\u{2000}' <= c <= '\u{200a}'
    ||| c == '\u{2028}'
    ||| c == '\u{2029}'
    ||| c == '\u{202f}'
    ||| c == '\u{205f}'
    ||| c == '\u{3000}'
}

/// Whether `text` holds no white space.
pub open spec fn unbroken(text: Seq<char>) -> bool {
    forall|i: int| 0 <= i < text.len() ==> !is_space(#[trigger] text[i])
}

/// `pending`, as a word of its own, unless it is empty.
pub open spec fn word_if_any(pending: Seq<char>) -> Seq<Seq<char>> {
    if pending.len() > 0 {
        seq![pending]
    } else {
        Seq::empty()
    }
}

/// The words that are read from position `from` of `text` on, when
/// `pending` is what has been read of a word that is under way.
pub open spec fn words_from(text: Seq<char>, from: int, pending: Seq<char>) -> Seq<Seq<char>>
    decreases text.len() - from,
{
    if from < 0 || from >= text.len() {
        word_if_any(pending)
    } else if is_space(text[from]) {
        word_if_any(pending) + words_from(text, from + 1, Seq::empty())
    } else {
        words_from(text, from + 1, pending.push(text[from]))
    }
}

/// The words of `text`, in order: its longest stretches without white space.
pub open spec fn words_in(text: Seq<char>) -> Seq<Seq<char>> {
    words_from(text, 0, Seq::empty())
}

/// The position of the first character of `text` at or after `from` that is
/// no white space, or the length of `text` where none follows.
pub open spec fn skip_space(text: Seq<char>, from: int) -> int
    decreases text.len() - from,
{
    if from < 0 || from >= text.len() || !is_space(text[from]) {
        from
    } else {
        skip_space(text, from + 1)
    }
}

/// The position behind the last character of `text` before `upto` that is
/// no white space, or zero where none comes before.
pub open spec fn skip_space_back(text: Seq<char>, upto: int) -> int
    decreases upto,
{
    if upto <= 0 || upto > text.len() || !is_space(text[upto - 1]) {
        upto
    } else {
        skip_space_back(text, upto - 1)
    }
}

/// `text` without the white space at its two ends.
pub open spec fn trimmed(text: Seq<char>) -> Seq<char> {
    let start = skip_space(text, 0);
    let end = skip_space_back(text, text.len() as int);
    if start < end {
        text.subrange(start, end)
    } else {
        Seq::empty()
    }
}

/// Those of `words` that are not written in letters only, in order.
pub open spec fn turned_down(words: Seq<Seq<char>>) -> Seq<Seq<char>> {
    words.filter(|word: Seq<char>| !valid_word(word))
}

/// Whether `c` is white space.
pub fn is_white_space(c: char) -> (yes: bool)
    ensures
        yes == is_space(c),
{
    ('\u{9}' <= c && c <= '\u{d}') || c == ' ' || c == '\u{85}' || c == '\u{a0}' || c == '\u{1680}'
        || ('\u{2000}' <= c && c <= '\u{200a}') || c == '\u{2028}' || c == '\u{2029}' || c
        == '\u{202f}' || c == '\u{205f}' || c == '\u{3000}'
}

/// `text` without the white space at its two ends.
pub fn trim(text: &str) -> (inner: String)
    ensures
        inner@ == trimmed(text@),
{
    let chars = chars_of(text);
    let mut start: usize = 0;
    while start < chars.len() && is_white_space(chars[start])
        invariant
            start <= chars.len(),
            skip_space(chars@, start as int) == skip_space(chars@, 0),
        decreases chars.len() - start,
    {
        start += 1;
    }
    let mut end: usize = chars.len();
    while end > start && is_white_space(chars[end - 1])
        invariant
            start <= end <= chars.len(),
            skip_space_back(chars@, end as int) == skip_space_back(chars@, chars.len() as int),
        decreases end,
    {
        end -= 1;
    }
    proof {
        lemma_skip_space_back_bounds(chars@, end as int);
    }
    let mut inner = String::new();
    let mut i: usize = start;
    while i < end
        invariant
            start <= i <= end <= chars.len(),
            inner@ == chars@.subrange(start as int, i as int),
        decreases end - i,
    {
        let ghost so_far = chars@.subrange(start as int, i as int);
        inner.push(chars[i]);
        assert(chars@.subrange(start as int, i + 1) =~= so_far.push(chars@[i as int]));
        i += 1;
    }
    inner
}

/// The words of `text`, in order.
pub fn split_words(text: &str) -> (words: Vec<String>)
    ensures
        texts(words@) == words_in(text@),
{
    let chars = chars_of(text);
    let mut words: Vec<String> = Vec::new();
    let mut pending = String::new();
    let mut i: usize = 0;
    assert(texts(words@) + words_from(chars@, 0, pending@) =~= words_in(text@));
    while i < chars.len()
        invariant
            i <= chars.len(),
            chars@ == text@,
            texts(words@) + words_from(chars@, i as int, pending@) == words_in(text@),
        decreases chars.len() - i,
    {
        let c = chars[i];
        let ghost before = texts(words@);
        let ghost held = pending@;
        assert(chars@[i as int] == c);
        if !is_white_space(c) {
            pending.push(c);
            assert(words_from(chars@, i as int, held) == words_from(chars@, i + 1, pending@));
        } else {
            let ghost next = words_from(chars@, i + 1, Seq::empty());
            assert(words_from(chars@, i as int, held) == word_if_any(held) + next);
            assert(before + (word_if_any(held) + next) =~= (before + word_if_any(held)) + next);
            if !pending.as_str().is_empty() {
                words.push(pending);
                pending = String::new();
                assert(texts(words@) =~= before + word_if_any(held));
            } else {
                assert(held =~= Seq::<char>::empty());
                assert(before + word_if_any(held) =~= before);
            }
        }
        i += 1;
    }
    let ghost before = texts(words@);
    if !pending.as_str().is_empty() {
        words.push(pending);
        assert(texts(words@) =~= before + words_from(chars@, i as int, pending@));
    } else {
        assert(before + words_from(chars@, i as int, pending@) =~= before);
    }
    words
}

/// Offers every word of `text` to `dictionary`, in order, and hands back
/// those that it turned down.
pub fn load_words(dictionary: &mut Trie, text: &str) -> (rejected: Vec<String>)
    ensures
        final(dictionary)@ == inserted_all(old(dictionary)@, words_in(text@)),
        texts(rejected@) == turned_down(words_in(text@)),
{
    let words = split_words(text);
    let mut rejected: Vec<String> = Vec::new();
    let ghost all = texts(words@);
    let mut i: usize = 0;
    proof {
        reveal(Seq::filter);
        assert(all.take(0) =~= Seq::<Seq<char>>::empty());
    }
    while i < words.len()
        invariant
            i <= words.len(),
            all == texts(words@),
            all == words_in(text@),
            dictionary@ == inserted_all(old(dictionary)@, all.take(i as int)),
            texts(rejected@) == turned_down(all.take(i as int)),
        decreases words.len() - i,
    {
        let ghost so_far = texts(rejected@);
        proof {
            reveal(Seq::filter);
            assert(all.take(i + 1).drop_last() =~= all.take(i as int));
            assert(all.take(i + 1).last() == words@[i as int]@);
        }
        if dictionary.insert(words[i].as_str()).is_err() {
            rejected.push(words[i].clone());
            assert(texts(rejected@) =~= so_far.push(words@[i as int]@));
        }
        i += 1;
    }
    assert(all.take(i as int) =~= all);
    rejected
}

/// What is left of a text after trimming neither begins nor ends with
/// white space.
pub proof fn lemma_trimmed_has_no_space_at_its_ends(text: Seq<char>)
    requires
        trimmed(text).len() > 0,
    ensures
        !is_space(trimmed(text).first()),
        !is_space(trimmed(text).last()),
{
    lemma_skip_space_bounds(text, 0);
    lemma_skip_space_back_bounds(text, text.len() as int);
    lemma_skip_space_back_stops(text, text.len() as int);
}

/// A text that neither begins nor ends with white space stays as it is.
pub proof fn lemma_trimmed_keeps_framed_text(text: Seq<char>)
    requires
        text.len() > 0,
        !is_space(text.first()),
        !is_space(text.last()),
    ensures
        trimmed(text) == text,
{
    assert(text.subrange(0, text.len() as int) =~= text);
}

/// No word of a text is empty, and none holds white space.
pub proof fn lemma_words_are_unbroken(text: Seq<char>, i: int)
    requires
        0 <= i < words_in(text).len(),
    ensures
        words_in(text)[i].len() > 0,
        unbroken(words_in(text)[i]),
{
    lemma_words_from_unbroken(text, 0, Seq::empty(), i);
}

/// A text without white space is its own and only word.
pub proof fn lemma_unbroken_text_is_one_word(text: Seq<char>)
    requires
        text.len() > 0,
        unbroken(text),
    ensures
        words_in(text) == seq![text],
{
    lemma_words_from_unbroken_rest(text, 0, Seq::empty());
    assert(Seq::<char>::empty() + text.skip(0) =~= text);
}

/// White space between two texts parts the words of one from those of the
/// other and adds none.
pub proof fn lemma_white_space_parts_words(before: Seq<char>, space: char, after: Seq<char>)
    requires
        is_space(space),
    ensures
        words_in(before.push(space) + after) == words_in(before) + words_in(after),
{
    lemma_words_from_parted(before, space, after, 0, Seq::empty());
}

/// The words read from `from` on are unbroken where what is pending is.
proof fn lemma_words_from_unbroken(text: Seq<char>, from: int, pending: Seq<char>, i: int)
    requires
        0 <= from,
        unbroken(pending),
        0 <= i < words_from(text, from, pending).len(),
    ensures
        words_from(text, from, pending)[i].len() > 0,
        unbroken(words_from(text, from, pending)[i]),
    decreases text.len() - from,
{
    if from >= text.len() {
    } else if is_space(text[from]) {
        let first = word_if_any(pending);
        if i >= first.len() {
            lemma_words_from_unbroken(text, from + 1, Seq::empty(), i - first.len());
        }
    } else {
        lemma_words_from_unbroken(text, from + 1, pending.push(text[from]), i);
    }
}

/// Where no white space follows, what follows goes into the pending word.
proof fn lemma_words_from_unbroken_rest(text: Seq<char>, from: int, pending: Seq<char>)
    requires
        0 <= from <= text.len(),
        unbroken(text),
    ensures
        words_from(text, from, pending) == word_if_any(pending + text.skip(from)),
    decreases text.len() - from,
{
    if from < text.len() {
        lemma_words_from_unbroken_rest(text, from + 1, pending.push(text[from]));
        assert(pending.push(text[from]) + text.skip(from + 1) =~= pending + text.skip(from));
    } else {
        assert(pending + text.skip(from) =~= pending);
    }
}

/// Reading `before`, white space and `after` in one go is reading `before`
/// and then `after` afresh.
proof fn lemma_words_from_parted(
    before: Seq<char>,
    space: char,
    after: Seq<char>,
    from: int,
    pending: Seq<char>,
)
    requires
        is_space(space),
        0 <= from <= before.len(),
    ensures
        words_from(before.push(space) + after, from, pending) == words_from(before, from, pending)
            + words_in(after),
    decreases before.len() - from,
{
    let whole = before.push(space) + after;
    if from < before.len() {
        assert(whole[from] == before[from]);
        if is_space(before[from]) {
            lemma_words_from_parted(before, space, after, from + 1, Seq::empty());
            assert(word_if_any(pending) + (words_from(before, from + 1, Seq::empty()) + words_in(
                after,
            )) =~= (word_if_any(pending) + words_from(before, from + 1, Seq::empty()))
                + words_in(after));
        } else {
            lemma_words_from_parted(before, space, after, from + 1, pending.push(before[from]));
        }
    } else {
        assert(whole[from] == space);
        assert(whole.skip(from + 1) =~= after.skip(0));
        lemma_words_from_shifted(whole, after, from + 1, 0, Seq::empty());
        assert(words_from(before, from, pending) == word_if_any(pending));
    }
}

/// What is read from a text depends only on what stands from the position
/// of reading on.
proof fn lemma_words_from_shifted(
    one: Seq<char>,
    other: Seq<char>,
    from_one: int,
    from_other: int,
    pending: Seq<char>,
)
    requires
        0 <= from_one <= one.len(),
        0 <= from_other <= other.len(),
        one.skip(from_one) == other.skip(from_other),
    ensures
        words_from(one, from_one, pending) == words_from(other, from_other, pending),
    decreases one.len() - from_one,
{
    assert(one.skip(from_one).len() == one.len() - from_one);
    assert(other.skip(from_other).len() == other.len() - from_other);
    if from_one < one.len() {
        assert(one[from_one] == one.skip(from_one)[0]);
        assert(other[from_other] == other.skip(from_other)[0]);
        assert(one.skip(from_one + 1) =~= one.skip(from_one).drop_first());
        assert(other.skip(from_other + 1) =~= other.skip(from_other).drop_first());
        if is_space(one[from_one]) {
            lemma_words_from_shifted(one, other, from_one + 1, from_other + 1, Seq::empty());
        } else {
            lemma_words_from_shifted(
                one,
                other,
                from_one + 1,
                from_other + 1,
                pending.push(one[from_one]),
            );
        }
    }
}

/// Going back over white space ends at or before where it began, and not
/// before the beginning of the text.
proof fn lemma_skip_space_back_bounds(text: Seq<char>, upto: int)
    requires
        0 <= upto,
    ensures
        0 <= skip_space_back(text, upto) <= upto,
    decreases upto,
{
    if upto > 0 && upto <= text.len() && is_space(text[upto - 1]) {
        lemma_skip_space_back_bounds(text, upto - 1);
    }
}

/// Going on over white space ends at or behind where it began, and not
/// behind the end of the text.
proof fn lemma_skip_space_bounds(text: Seq<char>, from: int)
    requires
        0 <= from <= text.len(),
    ensures
        from <= skip_space(text, from) <= text.len(),
        skip_space(text, from) < text.len() ==> !is_space(text[skip_space(text, from)]),
    decreases text.len() - from,
{
    if from < text.len() && is_space(text[from]) {
        lemma_skip_space_bounds(text, from + 1);
    }
}

/// Going back over white space stops behind a character that is none.
proof fn lemma_skip_space_back_stops(text: Seq<char>, upto: int)
    requires
        0 <= upto <= text.len(),
    ensures
        skip_space_back(text, upto) > 0 ==> !is_space(text[skip_space_back(text, upto) - 1]),
    decreases upto,
{
    if upto > 0 && is_space(text[upto - 1]) {
        lemma_skip_space_back_stops(text, upto - 1);
    }
}

} // verus!
