//! The dictionary: a prefix tree over the letters `a` to `z`.
//!
//! Every node stands for the text spelled by the letters on the way from the
//! root to it, and is marked where that text is a stored word. To the
//! outside a tree is the set of the words stored in it.

use crate::alphabet::{
    is_letter, letter_at, letter_index, letter_of, only_letters, slot_of, valid_word,
    ALPHABET_SIZE,
};
use crate::error::WordError;
use crate::order::{
    ascending, lemma_ascending_no_duplicates, lemma_sorted_listing_unique, precedes, precedes_at,
};
use crate::text::{chars_of, texts};
use vstd::prelude::*;
use vstd::set_lib::lemma_set_subset_finite;

verus! {

/// A prefix tree, and each of its nodes. The child for a letter stands at
/// the letter's position in the alphabet; a node has children up to the
/// last letter that a stored word needed, those in between being empty.
pub struct Trie {
    children: Vec<Trie>,
    is_word: bool,
}

impl View for Trie {
    type V = Set<Seq<char>>;

    /// The set of the words stored in the tree.
    closed spec fn view(&self) -> Set<Seq<char>> {
        Set::new(|word: Seq<char>| self.holds(word))
    }
}

/// What a dictionary that stores `stored` stores after `word` was offered to
/// it: `word` too where it is written in letters only, the same otherwise.
pub open spec fn inserted(stored: Set<Seq<char>>, word: Seq<char>) -> Set<Seq<char>> {
    if valid_word(word) {
        stored.insert(word)
    } else {
        stored
    }
}

/// What a dictionary that stores `stored` stores after the texts of `words`
/// were offered to it one after another.
pub open spec fn inserted_all(stored: Set<Seq<char>>, words: Seq<Seq<char>>) -> Set<Seq<char>>
    decreases words.len(),
{
    if words.len() == 0 {
        stored
    } else {
        inserted(inserted_all(stored, words.drop_last()), words.last())
    }
}

/// The texts that are `prefix` followed by a word of `stored`.
pub open spec fn prefixed(prefix: Seq<char>, stored: Set<Seq<char>>) -> Set<Seq<char>> {
    Set::new(
        |text: Seq<char>|
            text.len() >= prefix.len() && text.take(prefix.len() as int) == prefix
                && stored.contains(text.skip(prefix.len() as int)),
    )
}

impl Trie {
    /// Whether the path that `word` spells exists from this node on and ends
    /// in a marked node.
    spec fn holds(&self, word: Seq<char>) -> bool
        decreases word.len(),
    {
        if word.len() == 0 {
            self.is_word
        } else {
            &&& is_letter(word[0])
            &&& letter_index(word[0]) < self.children.len()
            &&& self.children[letter_index(word[0])].holds(word.drop_first())
        }
    }

    /// No node has more children than the alphabet has letters.
    #[verifier::type_invariant]
    spec fn well_formed(&self) -> bool {
        self.children.len() <= ALPHABET_SIZE
    }

    /// A dictionary that stores nothing.
    pub fn new() -> (trie: Trie)
        ensures
            trie@ == Set::<Seq<char>>::empty(),
    {
        let trie = Trie { children: Vec::new(), is_word: false };
        assert(forall|word: Seq<char>| !trie.holds(word));
        trie
    }

    /// Stores `word`. A word that holds a character outside `a` to `z` is
    /// turned down, and the dictionary stays as it was. Storing a word that
    /// is already there changes nothing; the empty word may be stored.
    pub fn insert(&mut self, word: &str) -> (outcome: Result<(), WordError>)
        ensures
            final(self)@ == inserted(old(self)@, word@),
            valid_word(word@) ==> outcome is Ok,
            !valid_word(word@) ==> outcome == Err::<(), WordError>(WordError::InvalidCharacter),
    {
        let chars = chars_of(word);
        if !only_letters(&chars) {
            return Err(WordError::InvalidCharacter);
        }
        self.insert_from(&chars, 0);
        assert(chars@.skip(0) =~= chars@);
        Ok(())
    }

    /// Stores the rest of `word` from position `from` on below this node.
    fn insert_from(&mut self, word: &Vec<char>, from: usize)
        requires
            from <= word.len(),
            valid_word(word@),
        ensures
            final(self)@ == old(self)@.insert(word@.skip(from as int)),
        decreases word.len() - from,
    {
        proof {
            use_type_invariant(&*self);
        }
        let ghost rest = word@.skip(from as int);
        if from == word.len() {
            self.is_word = true;
            assert forall|other: Seq<char>| self.holds(other) == (old(self).holds(other) || other
                == rest) by {
                if other.len() == 0 {
                    assert(other =~= rest);
                }
            }
            assert(self@ =~= old(self)@.insert(rest));
            return ;
        }
        let slot = slot_of(word[from]).unwrap();
        let mut children: Vec<Trie> = Vec::new();
        std::mem::swap(&mut children, &mut self.children);
        let ghost before = children@;
        while children.len() <= slot
            invariant
                slot < ALPHABET_SIZE,
                children.len() <= ALPHABET_SIZE,
                before.len() <= children.len(),
                forall|j: int| 0 <= j < before.len() ==> children@[j] == before[j],
                forall|j: int|
                    before.len() <= j < children.len() ==> (#[trigger] children@[j])@
                        == Set::<Seq<char>>::empty(),
            decreases slot + 1 - children.len(),
        {
            children.push(Trie::new());
        }
        let ghost grown = children@;
        children[slot].insert_from(word, from + 1);
        self.children = children;
        proof {
            let tail = word@.skip(from + 1);
            assert(rest.drop_first() =~= tail);
            assert(rest[0] == word@[from as int]);
            assert forall|other: Seq<char>| self.holds(other) == (old(self).holds(other) || other
                == rest) by {
                if other.len() > 0 && is_letter(other[0]) {
                    let j = letter_index(other[0]);
                    if j == slot {
                        let after = other.drop_first();
                        assert(self.children[j]@.contains(after) == (grown[j]@.contains(after)
                            || after == tail));
                        if after == tail {
                            assert forall|i: int| 0 < i < other.len() implies other[i]
                                == rest[i] by {
                                assert(after[i - 1] == other[i]);
                                assert(rest.drop_first()[i - 1] == rest[i]);
                            }
                            assert(other =~= rest);
                        }
                    } else if before.len() <= j < grown.len() {
                        assert(!grown[j]@.contains(other.drop_first()));
                    }
                }
            }
            assert(self@ =~= old(self)@.insert(rest));
        }
    }

    /// Whether `word` is stored. A prefix of a stored word is not thereby
    /// stored itself, and a text that holds anything but letters never is.
    pub fn contains(&self, word: &str) -> (found: bool)
        ensures
            found == self@.contains(word@),
            found ==> valid_word(word@),
    {
        proof {
            self.lemma_stored_words_valid();
        }
        let mut node = self;
        assert(word@.skip(0) =~= word@);
        for c in it: word.chars()
            invariant
                it.seq() == word@,
                self.holds(word@) == node.holds(word@.skip(it.index())),
        {
            let ghost rest = word@.skip(it.index());
            assert(rest[0] == c);
            assert(rest.drop_first() =~= word@.skip(it.index() + 1));
            match slot_of(c) {
                None => {
                    return false;
                },
                Some(slot) => {
                    if slot >= node.children.len() {
                        return false;
                    }
                    node = &node.children[slot];
                },
            }
        }
        assert(word@.skip(word@.len() as int).len() == 0);
        node.is_word
    }

    /// The stored words, each with `prefix` in front and each once, in
    /// dictionary order: a node's own word first, then what lies below its
    /// children, letter by letter. With the empty prefix, at the root, this
    /// is the whole dictionary, sorted.
    pub fn list_content(&self, prefix: &str) -> (words: Vec<String>)
        ensures
            texts(words@).to_set() == prefixed(prefix@, self@),
            prefix@.len() == 0 ==> texts(words@).to_set() == self@,
            ascending(texts(words@)),
            texts(words@).no_duplicates(),
        decreases self,
    {
        proof {
            use_type_invariant(self);
        }
        let ghost start = prefix@;
        let ghost n = prefix@.len() as int;
        let mut result: Vec<String> = Vec::new();
        if self.is_word {
            result.push(prefix.to_string());
            assert(texts(result@) =~= seq![start]);
            assert(start.take(n) =~= start);
            assert(start.skip(n).len() == 0);
        }
        assert forall|text: Seq<char>| self.listed_below(start, 0, text) implies texts(
            result@,
        ).contains(text) by {
            if text.len() > n {
                assert(text.skip(n)[0] == text[n]);
            } else {
                assert(text.take(n) =~= text);
                assert(texts(result@)[0] == text);
            }
        }
        let mut i: usize = 0;
        while i < self.children.len()
            invariant
                i <= self.children.len() <= ALPHABET_SIZE,
                start == prefix@,
                n == start.len(),
                forall|k: int|
                    0 <= k < result.len() ==> self.listed_below(
                        start,
                        i as int,
                        #[trigger] texts(result@)[k],
                    ),
                forall|text: Seq<char>|
                    self.listed_below(start, i as int, text) ==> texts(result@).contains(text),
                ascending(texts(result@)),
            decreases self.children.len() - i,
        {
            let mut child_prefix = prefix.to_string();
            child_prefix.push(letter_of(i).unwrap());
            let mut below = self.children[i].list_content(&child_prefix);
            let ghost earlier = texts(result@);
            let ghost later = texts(below@);
            result.append(&mut below);
            proof {
                let all = texts(result@);
                assert(all =~= earlier + later);
                assert forall|k: int| 0 <= k < later.len() implies {
                    &&& self.listed_below(start, i + 1, #[trigger] later[k])
                    &&& later[k].len() > n
                    &&& letter_index(later[k][n]) == i
                } by {
                    assert(later.to_set().contains(later[k]));
                    self.lemma_child_entries(start, i as int, later[k]);
                }
                assert forall|k: int| 0 <= k < all.len() implies self.listed_below(
                    start,
                    i + 1,
                    #[trigger] all[k],
                ) by {
                    if k < earlier.len() {
                        assert(all[k] == earlier[k]);
                    } else {
                        assert(all[k] == later[k - earlier.len()]);
                    }
                }
                assert forall|text: Seq<char>|
                    self.listed_below(start, i + 1, text) implies all.contains(text) by {
                    if self.listed_below(start, i as int, text) {
                        let k = earlier.index_of(text);
                        assert(all[k] == text);
                    } else {
                        self.lemma_child_entries(start, i as int, text);
                        assert(later.to_set().contains(text));
                        let k = later.index_of(text);
                        assert(all[earlier.len() + k] == text);
                    }
                }
                assert forall|a: int, b: int| 0 <= a < b < all.len() implies precedes(
                    #[trigger] all[a],
                    #[trigger] all[b],
                ) by {
                    if b < earlier.len() {
                        assert(precedes(earlier[a], earlier[b]));
                    } else if a >= earlier.len() {
                        assert(precedes(later[a - earlier.len()], later[b - earlier.len()]));
                    } else {
                        let x = earlier[a];
                        let y = later[b - earlier.len()];
                        assert(all[a] == x && all[b] == y);
                        assert(precedes_at(x, y, n));
                    }
                }
            }
            i += 1;
        }
        proof {
            let all = texts(result@);
            assert forall|text: Seq<char>| all.to_set().contains(text) == prefixed(
                start,
                self@,
            ).contains(text) by {
                if all.contains(text) {
                    let k = all.index_of(text);
                    assert(self.listed_below(start, i as int, all[k]));
                }
                if prefixed(start, self@).contains(text) {
                    if text.len() > n {
                        assert(text.skip(n)[0] == text[n]);
                    }
                    assert(self.listed_below(start, i as int, text));
                }
            }
            assert(all.to_set() =~= prefixed(start, self@));
            if n == 0 {
                assert forall|text: Seq<char>| prefixed(start, self@).contains(text)
                    == self@.contains(text) by {
                    assert(text.skip(0) =~= text);
                    assert(text.take(0) =~= start);
                }
                assert(prefixed(start, self@) =~= self@);
            }
            lemma_ascending_no_duplicates(all);
        }
        result
    }

    /// Whether `text` belongs into the listing of this node under `prefix`
    /// as far as the children below slot `bound` have been listed: it is
    /// `prefix` followed by a stored word that is empty or begins with one
    /// of their letters.
    spec fn listed_below(&self, prefix: Seq<char>, bound: int, text: Seq<char>) -> bool {
        &&& text.len() >= prefix.len()
        &&& text.take(prefix.len() as int) == prefix
        &&& self.holds(text.skip(prefix.len() as int))
        &&& text.len() > prefix.len() ==> letter_index(text[prefix.len() as int]) < bound
    }

    /// The entries that the child at `slot` lists under `prefix` and its own
    /// letter are those of this node that go on with that letter.
    proof fn lemma_child_entries(&self, prefix: Seq<char>, slot: int, text: Seq<char>)
        requires
            0 <= slot < self.children.len(),
            slot < ALPHABET_SIZE,
        ensures
            prefixed(prefix.push(letter_at(slot)), self.children[slot]@).contains(text) <==> {
                &&& self.listed_below(prefix, slot + 1, text)
                &&& text.len() > prefix.len()
                &&& letter_index(text[prefix.len() as int]) == slot
            },
    {
        let n = prefix.len() as int;
        let longer = prefix.push(letter_at(slot));
        if text.len() > n {
            let rest = text.skip(n);
            assert(rest[0] == text[n]);
            assert(rest.drop_first() =~= text.skip(n + 1));
            if text.take(n + 1) == longer {
                assert(text.take(n) =~= longer.take(n));
                assert(longer.take(n) =~= prefix);
                assert(text.take(n + 1)[n] == longer[n]);
            }
            if text.take(n) == prefix && text[n] == letter_at(slot) {
                assert(text.take(n + 1) =~= text.take(n).push(text[n]));
            }
        }
    }

    /// What this node holds is written in letters only.
    proof fn lemma_held_is_valid(&self, word: Seq<char>)
        requires
            self.holds(word),
        ensures
            valid_word(word),
        decreases word.len(),
    {
        if word.len() > 0 {
            let rest = word.drop_first();
            self.children[letter_index(word[0])].lemma_held_is_valid(rest);
            assert forall|i: int| 0 <= i < word.len() implies is_letter(#[trigger] word[i]) by {
                if i > 0 {
                    assert(rest[i - 1] == word[i]);
                }
            }
        }
    }

    /// Every stored word is written in letters only.
    pub proof fn lemma_stored_words_valid(&self)
        ensures
            forall|word: Seq<char>| self@.contains(word) ==> valid_word(word),
    {
        assert forall|word: Seq<char>| self@.contains(word) implies valid_word(word) by {
            self.lemma_held_is_valid(word);
        }
    }

    /// The words held here that are empty or begin with a letter below
    /// slot `bound`.
    spec fn held_below(&self, bound: int) -> Set<Seq<char>> {
        Set::new(
            |word: Seq<char>|
                self.holds(word) && (word.len() > 0 ==> letter_index(word[0]) < bound),
        )
    }

    /// The children below slot `bound` hold finitely many words between
    /// them, the node's own word counted in.
    proof fn lemma_held_below_finite(&self, bound: int)
        requires
            0 <= bound <= self.children.len(),
        ensures
            self.held_below(bound).finite(),
        decreases self, bound,
    {
        if bound == 0 {
            let only_empty = Set::<Seq<char>>::empty().insert(Seq::<char>::empty());
            assert forall|word: Seq<char>|
                self.held_below(0).contains(word) implies only_empty.contains(word) by {
                assert(word =~= Seq::<char>::empty());
            }
            assert(self.held_below(0).subset_of(only_empty));
            lemma_set_subset_finite(only_empty, self.held_below(0));
        } else {
            let slot = bound - 1;
            let child = self.children[slot];
            let c = letter_at(slot);
            let extend = |rest: Seq<char>| seq![c] + rest;
            self.lemma_held_below_finite(slot);
            child.lemma_holds_finitely();
            child@.lemma_map_finite(extend);
            let so_far = self.held_below(slot).union(child@.map(extend));
            assert forall|word: Seq<char>|
                self.held_below(bound).contains(word) implies so_far.contains(word) by {
                if word.len() > 0 && letter_index(word[0]) == slot {
                    let rest = word.drop_first();
                    assert(child@.contains(rest));
                    assert(word =~= extend(rest));
                }
            }
            assert(self.held_below(bound).subset_of(so_far));
            lemma_set_subset_finite(so_far, self.held_below(bound));
        }
    }

    /// A node holds finitely many words.
    proof fn lemma_holds_finitely(&self)
        ensures
            self@.finite(),
        decreases self, self.children.len() + 1,
    {
        self.lemma_held_below_finite(self.children.len() as int);
        assert(self@ =~= self.held_below(self.children.len() as int));
    }

    /// A dictionary stores finitely many words.
    pub proof fn lemma_stored_words_finite(&self)
        ensures
            self@.finite(),
    {
        self.lemma_holds_finitely();
    }
}

/// A word that was stored is found right away, and still after any other
/// texts have been offered.
pub proof fn lemma_stored_word_stays(
    stored: Set<Seq<char>>,
    word: Seq<char>,
    later: Seq<Seq<char>>,
)
    requires
        valid_word(word),
    ensures
        inserted(stored, word).contains(word),
        inserted_all(inserted(stored, word), later).contains(word),
    decreases later.len(),
{
    if later.len() > 0 {
        lemma_stored_word_stays(stored, word, later.drop_last());
    }
}

/// A dictionary built from nothing holds the valid words that were offered
/// to it and nothing else: no prefix of a word, unless it was offered
/// itself, and no text that was turned down.
pub proof fn lemma_only_offered_words_found(words: Seq<Seq<char>>, probe: Seq<char>)
    ensures
        inserted_all(Set::empty(), words).contains(probe) <==> valid_word(probe) && words.contains(
            probe,
        ),
    decreases words.len(),
{
    if words.len() > 0 {
        let earlier = words.drop_last();
        lemma_only_offered_words_found(earlier, probe);
        if earlier.contains(probe) {
            let i = earlier.index_of(probe);
            assert(words[i] == probe);
        }
        if words.contains(probe) {
            let i = words.index_of(probe);
            if i < earlier.len() {
                assert(earlier[i] == probe);
            }
        }
        assert(words[words.len() - 1] == words.last());
    }
}

/// The sorted listing of a dictionary built from nothing names exactly the
/// valid words that were offered to it, each of them once, however often and
/// in whatever order they were offered.
pub proof fn lemma_listing_names_offered_words(words: Seq<Seq<char>>, listing: Seq<Seq<char>>)
    requires
        ascending(listing),
        listing.to_set() == inserted_all(Set::empty(), words),
    ensures
        forall|text: Seq<char>|
            listing.contains(text) <==> valid_word(text) && words.contains(text),
        listing.no_duplicates(),
{
    assert forall|text: Seq<char>| listing.contains(text) <==> valid_word(text) && words.contains(
        text,
    ) by {
        lemma_only_offered_words_found(words, text);
        assert(listing.contains(text) == listing.to_set().contains(text));
    }
    lemma_ascending_no_duplicates(listing);
}

/// Offering a word a second time changes nothing: the dictionary stores
/// what it stored, and its sorted listing is the one it had.
pub proof fn lemma_insert_twice(
    stored: Set<Seq<char>>,
    word: Seq<char>,
    once: Seq<Seq<char>>,
    twice: Seq<Seq<char>>,
)
    requires
        ascending(once),
        ascending(twice),
        once.to_set() == inserted(stored, word),
        twice.to_set() == inserted(inserted(stored, word), word),
    ensures
        inserted(inserted(stored, word), word) == inserted(stored, word),
        twice == once,
{
    assert(inserted(inserted(stored, word), word) =~= inserted(stored, word));
    lemma_sorted_listing_unique(once, twice);
}

} // verus!
