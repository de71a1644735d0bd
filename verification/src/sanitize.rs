//! Sanitizing a word: punctuation removed, then lowercase.
use vstd::prelude::*;
use vstd::std_specs::iter::IteratorSpec;
use crate::strings::{lowercase_of, push_char, to_lowercase};

verus! {

/// The four punctuation characters that are removed from a word.
pub open spec fn is_punctuation(c: char) -> bool {
    c == ',' || c == '.' || c == '!' || c == '?'
}

/// `word` without its punctuation characters; the others keep their order.
pub open spec fn without_punctuation(word: Seq<char>) -> Seq<char> {
    word.filter(|c: char| !is_punctuation(c))
}

/// The sanitized form of a word: its punctuation removed, and what is left
/// turned to lowercase.
pub open spec fn sanitized(word: Seq<char>) -> Seq<char> {
    lowercase_of(without_punctuation(word))
}

/// A word without punctuation is left as it is.
pub proof fn lemma_without_punctuation_clean(word: Seq<char>)
    requires
        forall|i: int| 0 <= i < word.len() ==> !is_punctuation(#[trigger] word[i]),
    ensures
        without_punctuation(word) == word,
    decreases word.len(),
{
    reveal(Seq::filter);
    if word.len() > 0 {
        lemma_without_punctuation_clean(word.drop_last());
    }
}

/// What is left of a word holds no punctuation and is no longer than the
/// word, and removing punctuation once more changes nothing.
pub proof fn lemma_without_punctuation(word: Seq<char>)
    ensures
        forall|i: int|
            0 <= i < without_punctuation(word).len() ==> !is_punctuation(
                #[trigger] without_punctuation(word)[i],
            ),
        without_punctuation(word).len() <= word.len(),
        without_punctuation(without_punctuation(word)) == without_punctuation(word),
{
    lemma_without_punctuation_clean(without_punctuation(word));
}

/// Tells whether `c` is one of the punctuation characters.
pub fn is_punctuation_char(c: char) -> (r: bool)
    ensures
        r == is_punctuation(c),
{
    c == ',' || c == '.' || c == '!' || c == '?'
}

/// Removes the punctuation characters from a word.
pub fn strip_punctuation(word: &str) -> (r: String)
    ensures
        r@ == without_punctuation(word@),
{
    let mut kept = String::new();
    let mut rest = word.chars();
    let ghost mut k: int = 0;
    loop
        invariant
            0 <= k <= word@.len(),
            rest.remaining() == word@.skip(k),
            kept@ == without_punctuation(word@.take(k)),
        decreases word@.len() - k,
    {
        match rest.next() {
            None => {
                assert(word@.take(k) =~= word@);
                return kept;
            },
            Some(c) => {
                proof {
                    reveal(Seq::filter);
                    assert(word@.take(k + 1).drop_last() =~= word@.take(k));
                }
                if !is_punctuation_char(c) {
                    push_char(&mut kept, c);
                }
                proof {
                    k = k + 1;
                }
            },
        }
    }
}

/// Removes punctuation from a word and converts it to lowercase.
pub fn sanitize_word(word: &str) -> (r: String)
    ensures
        r@ == sanitized(word@),
{
    let kept = strip_punctuation(word);
    to_lowercase(kept.as_str())
}

} // verus!
