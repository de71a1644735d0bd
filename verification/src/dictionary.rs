//! The dictionary: words with their counts, kept in word order.
use vstd::prelude::*;
use crate::order::{
    compare_words, lemma_word_less_asymmetric, lemma_word_less_connected,
    lemma_word_less_irreflexive, lemma_word_less_transitive, word_less, Precedence,
};

verus! {

/// The count that `counts` gives to `word`: zero for a word that it does not
/// hold.
pub open spec fn count_of(counts: Map<Seq<char>, u32>, word: Seq<char>) -> nat {
    if counts.contains_key(word) {
        counts[word] as nat
    } else {
        0
    }
}

/// `counts` after `word` was given the count `count`, unless it held the word
/// already: then it is unchanged.
pub open spec fn or_inserted(counts: Map<Seq<char>, u32>, word: Seq<char>, count: u32) -> Map<
    Seq<char>,
    u32,
> {
    if counts.contains_key(word) {
        counts
    } else {
        counts.insert(word, count)
    }
}

/// `counts` after one more occurrence of `word` was counted. A word that it
/// did not hold enters with the count one.
pub open spec fn incremented(counts: Map<Seq<char>, u32>, word: Seq<char>) -> Map<Seq<char>, u32> {
    counts.insert(word, (count_of(counts, word) + 1) as u32)
}

/// The words of a listing come in strictly increasing order.
pub open spec fn words_increase(listing: Seq<(Seq<char>, u32)>) -> bool {
    forall|i: int, j: int|
        0 <= i < j < listing.len() ==> word_less((#[trigger] listing[i]).0, (#[trigger] listing[j]).0)
}

/// `listing` is what a dictionary with the contents `counts` lists: the words
/// whose count is not zero, each once and with its count, in word order.
pub open spec fn lists_nonzero(listing: Seq<(Seq<char>, u32)>, counts: Map<Seq<char>, u32>) -> bool {
    &&& words_increase(listing)
    &&& forall|i: int|
        0 <= i < listing.len() ==> {
            let (word, count) = #[trigger] listing[i];
            counts.contains_key(word) && counts[word] == count && count != 0
        }
    &&& forall|word: Seq<char>|
        counts.contains_key(word) && counts[word] != 0 ==> exists|i: int|
            0 <= i < listing.len() && (#[trigger] listing[i]).0 == word
}

/// The listing of a dictionary with the contents `counts`. There is at most
/// one, see `lemma_lists_nonzero_unique`.
pub open spec fn listing_of(counts: Map<Seq<char>, u32>) -> Seq<(Seq<char>, u32)> {
    choose|listing: Seq<(Seq<char>, u32)>| lists_nonzero(listing, counts)
}

/// Two listings of the same contents hold the same word at each place.
proof fn lemma_same_word_at(
    a: Seq<(Seq<char>, u32)>,
    b: Seq<(Seq<char>, u32)>,
    counts: Map<Seq<char>, u32>,
    i: int,
)
    requires
        lists_nonzero(a, counts),
        lists_nonzero(b, counts),
        0 <= i < a.len(),
    ensures
        i < b.len(),
        b[i].0 == a[i].0,
    decreases i,
{
    let word = a[i].0;
    lemma_word_less_irreflexive(word);
    let p = choose|p: int| 0 <= p < b.len() && (#[trigger] b[p]).0 == word;
    if p < i {
        lemma_same_word_at(b, a, counts, p);
    }
    if p > i {
        let other = b[i].0;
        lemma_word_less_irreflexive(other);
        let q = choose|q: int| 0 <= q < a.len() && (#[trigger] a[q]).0 == other;
        if q < i {
            lemma_same_word_at(a, b, counts, q);
        } else if q > i {
            lemma_word_less_asymmetric(word, other);
        }
    }
}

/// A dictionary has one listing only: any two listings of the same contents
/// are equal.
pub proof fn lemma_lists_nonzero_unique(
    a: Seq<(Seq<char>, u32)>,
    b: Seq<(Seq<char>, u32)>,
    counts: Map<Seq<char>, u32>,
)
    requires
        lists_nonzero(a, counts),
        lists_nonzero(b, counts),
    ensures
        a == b,
{
    if a.len() > 0 {
        lemma_same_word_at(a, b, counts, a.len() - 1);
    }
    if b.len() > 0 {
        lemma_same_word_at(b, a, counts, b.len() - 1);
    }
    assert forall|i: int| 0 <= i < a.len() implies a[i] == b[i] by {
        lemma_same_word_at(a, b, counts, i);
    }
}

/// `word` stands at some place of `listing`.
spec fn holds(listing: Seq<(Seq<char>, u32)>, word: Seq<char>) -> bool {
    exists|i: int| 0 <= i < listing.len() && (#[trigger] listing[i]).0 == word
}

/// A place of `listing` at which `word` stands, if it stands at any.
spec fn place_of(listing: Seq<(Seq<char>, u32)>, word: Seq<char>) -> int {
    choose|i: int| 0 <= i < listing.len() && (#[trigger] listing[i]).0 == word
}

/// The map from the words of a listing to their counts.
spec fn counts_of(listing: Seq<(Seq<char>, u32)>) -> Map<Seq<char>, u32> {
    Map::new(|word: Seq<char>| holds(listing, word), |word: Seq<char>| listing[place_of(listing, word)].1)
}

/// `word` can be put at the place `at` of `listing` without breaking the
/// order: the words before that place are smaller, the others greater.
spec fn fits_at(listing: Seq<(Seq<char>, u32)>, at: int, word: Seq<char>) -> bool {
    &&& 0 <= at <= listing.len()
    &&& forall|i: int| 0 <= i < at ==> word_less((#[trigger] listing[i]).0, word)
    &&& forall|i: int| at <= i < listing.len() ==> word_less(word, (#[trigger] listing[i]).0)
}

/// In an ordered listing a word stands at one place only, and the map gives
/// it the count that stands there.
proof fn lemma_counts_of_at(listing: Seq<(Seq<char>, u32)>, i: int)
    requires
        words_increase(listing),
        0 <= i < listing.len(),
    ensures
        counts_of(listing).contains_key(listing[i].0),
        counts_of(listing)[listing[i].0] == listing[i].1,
        place_of(listing, listing[i].0) == i,
{
    // The word stands at `i`; at any other place stands a smaller or a
    // greater word.
    lemma_word_less_irreflexive(listing[i].0);
}

/// Putting a new word at its place in an ordered listing keeps the order and
/// adds the word to the map.
proof fn lemma_counts_of_insert(listing: Seq<(Seq<char>, u32)>, at: int, word: Seq<char>, count: u32)
    requires
        words_increase(listing),
        fits_at(listing, at, word),
    ensures
        !counts_of(listing).contains_key(word),
        words_increase(listing.insert(at, (word, count))),
        counts_of(listing.insert(at, (word, count))) == counts_of(listing).insert(word, count),
{
    let grown = listing.insert(at, (word, count));
    let moved = |i: int| if i < at { i } else { i + 1 };
    lemma_word_less_irreflexive(word);
    assert(words_increase(grown));
    assert(grown[at] == (word, count));
    assert forall|w: Seq<char>| #[trigger] counts_of(grown).contains_key(w) <==> counts_of(
        listing,
    ).insert(word, count).contains_key(w) by {
        if holds(listing, w) {
            assert(grown[moved(place_of(listing, w))].0 == w);
        }
    }
    assert forall|w: Seq<char>| #[trigger] counts_of(grown).contains_key(w) implies counts_of(
        grown,
    )[w] == counts_of(listing).insert(word, count)[w] by {
        if w != word {
            lemma_counts_of_at(grown, moved(place_of(listing, w)));
        }
    }
}

/// Changing the count at one place of an ordered listing keeps the order and
/// changes the count of that word in the map.
proof fn lemma_counts_of_update(listing: Seq<(Seq<char>, u32)>, at: int, count: u32)
    requires
        words_increase(listing),
        0 <= at < listing.len(),
    ensures
        words_increase(listing.update(at, (listing[at].0, count))),
        counts_of(listing.update(at, (listing[at].0, count))) == counts_of(listing).insert(
            listing[at].0,
            count,
        ),
{
    let word = listing[at].0;
    let changed = listing.update(at, (word, count));
    assert(words_increase(changed));
    assert forall|w: Seq<char>| #[trigger] counts_of(changed).contains_key(w) <==> counts_of(
        listing,
    ).insert(word, count).contains_key(w) by {
        if holds(listing, w) {
            assert(changed[place_of(listing, w)].0 == w);
        }
    }
    assert forall|w: Seq<char>| #[trigger] counts_of(changed).contains_key(w) implies counts_of(
        changed,
    )[w] == counts_of(listing).insert(word, count)[w] by {
        lemma_counts_of_at(listing, place_of(changed, w));
        lemma_counts_of_at(listing, at);
    }
}

/// A mapping from words to counts that lists its words in word order.
pub struct Dictionary {
    entries: Vec<(String, u32)>,
}

impl View for Dictionary {
    type V = Map<Seq<char>, u32>;

    /// The count of each word of the dictionary.
    closed spec fn view(&self) -> Map<Seq<char>, u32> {
        counts_of(self.entries.deep_view())
    }
}

impl Dictionary {
    /// The entries are kept in strictly increasing word order, so that no
    /// word occurs twice.
    #[verifier::type_invariant]
    closed spec fn ordered(&self) -> bool {
        words_increase(self.entries.deep_view())
    }

    /// The dictionary that holds no word.
    pub fn new() -> (r: Dictionary)
        ensures
            r@ == Map::<Seq<char>, u32>::empty(),
    {
        let r = Dictionary { entries: Vec::new() };
        r
    }

    /// Finds the place of `word`: where it stands, if the dictionary holds
    /// it, and else where it would have to be put to keep the order.
    fn locate(&self, word: &str) -> (r: (bool, usize))
        ensures
            r.0 == self@.contains_key(word@),
            r.0 ==> r.1 < self.entries.len() && self.entries.deep_view()[r.1 as int] == (
                word@,
                self@[word@],
            ),
            !r.0 ==> fits_at(self.entries.deep_view(), r.1 as int, word@),
    {
        proof {
            use_type_invariant(self);
        }
        let ghost listing = self.entries.deep_view();
        let mut low: usize = 0;
        let mut high: usize = self.entries.len();
        while low < high
            invariant
                listing == self.entries.deep_view(),
                words_increase(listing),
                low <= high <= self.entries.len(),
                forall|i: int| 0 <= i < low ==> word_less((#[trigger] listing[i]).0, word@),
                forall|i: int| high <= i < listing.len() ==> word_less(word@, (#[trigger] listing[i]).0),
            decreases high - low,
        {
            let middle = low + (high - low) / 2;
            let ghost here = listing[middle as int].0;
            match compare_words(self.entries[middle].0.as_str(), word) {
                Precedence::Before => {
                    assert forall|i: int| 0 <= i < middle + 1 implies word_less(
                        (#[trigger] listing[i]).0,
                        word@,
                    ) by {
                        if i < middle {
                            lemma_word_less_transitive(listing[i].0, here, word@);
                        }
                    }
                    low = middle + 1;
                },
                Precedence::Same => {
                    proof {
                        lemma_counts_of_at(listing, middle as int);
                    }
                    return (true, middle);
                },
                Precedence::After => {
                    proof {
                        lemma_word_less_connected(here, word@);
                    }
                    assert forall|i: int| middle <= i < listing.len() implies word_less(
                        word@,
                        (#[trigger] listing[i]).0,
                    ) by {
                        if middle < i {
                            lemma_word_less_transitive(word@, here, listing[i].0);
                        }
                    }
                    high = middle;
                },
            }
        }
        proof {
            lemma_counts_of_insert(listing, low as int, word@, 0);
        }
        (false, low)
    }

    /// Puts a word that the dictionary does not hold at its place.
    fn put(&mut self, at: usize, word: String, count: u32)
        requires
            fits_at(old(self).entries.deep_view(), at as int, word@),
        ensures
            final(self)@ == old(self)@.insert(word@, count),
    {
        let ghost before = self.entries.deep_view();
        proof {
            use_type_invariant(&*self);
            lemma_counts_of_insert(before, at as int, word@, count);
        }
        // The entries are taken out while they change and put back in order.
        let mut entries: Vec<(String, u32)> = Vec::new();
        std::mem::swap(&mut self.entries, &mut entries);
        entries.insert(at, (word, count));
        assert(entries.deep_view() =~= before.insert(at as int, (word@, count)));
        self.entries = entries;
    }

    /// Changes the count that stands at one place.
    fn set_count(&mut self, at: usize, count: u32)
        requires
            at < old(self).entries.len(),
        ensures
            final(self)@ == old(self)@.insert(old(self).entries.deep_view()[at as int].0, count),
    {
        let ghost before = self.entries.deep_view();
        proof {
            use_type_invariant(&*self);
            lemma_counts_of_update(before, at as int, count);
        }
        // The entries are taken out while they change and put back in order.
        let mut entries: Vec<(String, u32)> = Vec::new();
        std::mem::swap(&mut self.entries, &mut entries);
        entries[at].1 = count;
        assert(entries.deep_view() =~= before.update(at as int, (before[at as int].0, count)));
        self.entries = entries;
    }

    /// The count of `word`, if the dictionary holds it.
    pub fn get(&self, word: &str) -> (r: Option<u32>)
        ensures
            r == (if self@.contains_key(word@) {
                Some(self@[word@])
            } else {
                None
            }),
    {
        proof {
            use_type_invariant(self);
        }
        let (found, at) = self.locate(word);
        if found {
            Some(self.entries[at].1)
        } else {
            None
        }
    }

    /// Gives `word` the count `count`, unless the dictionary holds the word
    /// already: then nothing changes.
    pub fn insert_if_absent(&mut self, word: String, count: u32)
        ensures
            final(self)@ == or_inserted(old(self)@, word@, count),
    {
        proof {
            use_type_invariant(&*self);
        }
        let (found, at) = self.locate(word.as_str());
        if !found {
            self.put(at, word, count);
        }
    }

    /// Counts one more occurrence of `word`. A word that the dictionary does
    /// not hold enters with the count one.
    ///
    /// Returns `false`, and changes nothing, when the count of the word is
    /// `u32::MAX` already.
    pub fn increment(&mut self, word: String) -> (counted: bool)
        ensures
            counted == (count_of(old(self)@, word@) < u32::MAX),
            final(self)@ == (if counted {
                incremented(old(self)@, word@)
            } else {
                old(self)@
            }),
    {
        proof {
            use_type_invariant(&*self);
        }
        let (found, at) = self.locate(word.as_str());
        if found {
            let count = self.entries[at].1;
            if count == u32::MAX {
                return false;
            }
            self.set_count(at, count + 1);
        } else {
            self.put(at, word, 1);
        }
        true
    }

    /// The words whose count is not zero, each with its count, in word order.
    pub fn nonzero_entries(&self) -> (r: Vec<(String, u32)>)
        ensures
            lists_nonzero(r.deep_view(), self@),
            r.deep_view() == listing_of(self@),
    {
        proof {
            use_type_invariant(self);
        }
        let ghost listing = self.entries.deep_view();
        let ghost mut from: Seq<int> = Seq::empty();
        let mut chosen: Vec<(String, u32)> = Vec::new();
        let mut i: usize = 0;
        while i < self.entries.len()
            invariant
                listing == self.entries.deep_view(),
                i <= self.entries.len(),
                from.len() == chosen.len(),
                forall|k: int|
                    0 <= k < from.len() ==> 0 <= #[trigger] from[k] < i && chosen.deep_view()[k]
                        == listing[from[k]] && listing[from[k]].1 != 0,
                forall|k: int, l: int| 0 <= k < l < from.len() ==> from[k] < from[l],
                forall|j: int|
                    0 <= j < i && (#[trigger] listing[j]).1 != 0 ==> exists|k: int|
                        0 <= k < from.len() && #[trigger] from[k] == j,
            decreases self.entries.len() - i,
        {
            let count = self.entries[i].1;
            if count != 0 {
                let word = self.entries[i].0.clone();
                let ghost sources = from;
                chosen.push((word, count));
                proof {
                    from = from.push(i as int);
                    assert forall|j: int|
                        0 <= j < i + 1 && (#[trigger] listing[j]).1 != 0 implies exists|k: int|
                        0 <= k < from.len() && #[trigger] from[k] == j by {
                        if j < i {
                            let k = choose|k: int| 0 <= k < sources.len() && #[trigger] sources[k] == j;
                            assert(from[k] == j);
                        } else {
                            assert(from[from.len() - 1] == j);
                        }
                    }
                }
            }
            i += 1;
        }
        proof {
            let listed = chosen.deep_view();
            assert forall|k: int, l: int| 0 <= k < l < listed.len() implies word_less(
                (#[trigger] listed[k]).0,
                (#[trigger] listed[l]).0,
            ) by {
                assert(listed[k] == listing[from[k]]);
                assert(listed[l] == listing[from[l]]);
            }
            assert forall|k: int| 0 <= k < listed.len() implies {
                let (word, count) = #[trigger] listed[k];
                self@.contains_key(word) && self@[word] == count && count != 0
            } by {
                lemma_counts_of_at(listing, from[k]);
            }
            assert forall|word: Seq<char>| self@.contains_key(word) && self@[word] != 0 implies exists|
                k: int,
            |
                0 <= k < listed.len() && (#[trigger] listed[k]).0 == word by {
                let j = place_of(listing, word);
                lemma_counts_of_at(listing, j);
                let k = choose|k: int| 0 <= k < from.len() && #[trigger] from[k] == j;
                assert(listed[k].0 == word);
            }
            lemma_lists_nonzero_unique(listed, listing_of(self@), self@);
        }
        chosen
    }
}

} // verus!
