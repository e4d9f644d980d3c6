//! Dictionary order on texts, and what it means for a listing to be sorted.

use vstd::prelude::*;

verus! {

/// `a` comes before `b`, and position `k` shows it: the two agree on their
/// first `k` characters, and there either `a` ends while `b` goes on, or
/// `a` holds the smaller character.
pub open spec fn precedes_at(a: Seq<char>, b: Seq<char>, k: int) -> bool {
    &&& 0 <= k <= a.len()
    &&& k < b.len()
    &&& a.take(k) == b.take(k)
    &&& k < a.len() ==> a[k] < b[k]
}

/// `a` comes strictly before `b` in dictionary order.
pub open spec fn precedes(a: Seq<char>, b: Seq<char>) -> bool {
    exists|k: int| precedes_at(a, b, k)
}

/// Each entry of `texts` comes strictly before every later one.
pub open spec fn ascending(texts: Seq<Seq<char>>) -> bool {
    forall|i: int, j: int|
        0 <= i < j < texts.len() ==> precedes(#[trigger] texts[i], #[trigger] texts[j])
}

/// Of two texts at most one comes before the other.
pub proof fn lemma_precedes_asymmetric(a: Seq<char>, b: Seq<char>)
    ensures
        !(precedes(a, b) && precedes(b, a)),
{
    if precedes(a, b) && precedes(b, a) {
        let k = choose|k: int| precedes_at(a, b, k);
        let m = choose|m: int| precedes_at(b, a, m);
        if k < m {
            assert(b.take(m)[k] == a.take(m)[k]);
        } else if m < k {
            assert(a.take(k)[m] == b.take(k)[m]);
        }
    }
}

/// No text comes before itself.
pub proof fn lemma_precedes_irreflexive(a: Seq<char>)
    ensures
        !precedes(a, a),
{
    lemma_precedes_asymmetric(a, a);
}

/// A sorted listing names nothing twice.
pub proof fn lemma_ascending_no_duplicates(texts: Seq<Seq<char>>)
    requires
        ascending(texts),
    ensures
        texts.no_duplicates(),
{
    assert forall|i: int, j: int|
        0 <= i < texts.len() && 0 <= j < texts.len() && i != j implies texts[i] != texts[j] by {
        lemma_precedes_irreflexive(texts[i]);
        if i < j {
            assert(precedes(texts[i], texts[j]));
        } else {
            assert(precedes(texts[j], texts[i]));
        }
    }
}

/// A set of texts has at most one sorted listing: two sorted listings that
/// name the same texts are the same listing.
pub proof fn lemma_sorted_listing_unique(a: Seq<Seq<char>>, b: Seq<Seq<char>>)
    requires
        ascending(a),
        ascending(b),
        a.to_set() == b.to_set(),
    ensures
        a == b,
    decreases a.len(),
{
    if a.len() == 0 {
        if b.len() > 0 {
            assert(b.to_set().contains(b[0]));
            assert(a.contains(b[0]));
        }
        assert(a =~= b);
    } else {
        assert(a.to_set().contains(a.last()));
        assert(b.contains(a.last()));
        let k = b.index_of(a.last());
        assert(b.to_set().contains(b.last()));
        assert(a.contains(b.last()));
        let m = a.index_of(b.last());
        if k < b.len() - 1 {
            assert(precedes(b[k], b.last()));
            if m < a.len() - 1 {
                assert(precedes(a[m], a.last()));
            }
            lemma_precedes_asymmetric(a.last(), b.last());
        }
        assert(a.last() == b.last());
        lemma_ascending_no_duplicates(a);
        lemma_ascending_no_duplicates(b);
        let shorter_a = a.drop_last();
        let shorter_b = b.drop_last();
        assert forall|text: Seq<char>|
            shorter_a.to_set().contains(text) == shorter_b.to_set().contains(text) by {
            if shorter_a.contains(text) {
                let i = shorter_a.index_of(text);
                assert(a[i] == text);
                assert(a.to_set().contains(text));
                assert(b.contains(text));
                let j = b.index_of(text);
                assert(shorter_b[j] == text);
            }
            if shorter_b.contains(text) {
                let j = shorter_b.index_of(text);
                assert(b[j] == text);
                assert(b.to_set().contains(text));
                assert(a.contains(text));
                let i = a.index_of(text);
                assert(shorter_a[i] == text);
            }
        }
        assert(shorter_a.to_set() =~= shorter_b.to_set());
        assert(ascending(shorter_a)) by {
            assert forall|i: int, j: int| 0 <= i < j < shorter_a.len() implies precedes(
                #[trigger] shorter_a[i],
                #[trigger] shorter_a[j],
            ) by {
                assert(precedes(a[i], a[j]));
            }
        }
        assert(ascending(shorter_b)) by {
            assert forall|i: int, j: int| 0 <= i < j < shorter_b.len() implies precedes(
                #[trigger] shorter_b[i],
                #[trigger] shorter_b[j],
            ) by {
                assert(precedes(b[i], b[j]));
            }
        }
        lemma_sorted_listing_unique(shorter_a, shorter_b);
        assert(a =~= shorter_a.push(a.last()));
        assert(b =~= shorter_b.push(b.last()));
    }
}

} // verus!
