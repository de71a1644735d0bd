//! Seeding a dictionary from dictionary lines and counting the words of a text.
use vstd::prelude::*;
use crate::dictionary::{count_of, incremented, or_inserted, Dictionary};
use crate::sanitize::{sanitize_word, sanitized};
use crate::text::{deconstruct_dictionary_line, dictionary_line, first_word, get_word_from_line};

verus! {

/// The entry that a dictionary line gives: its word, sanitized, and its count.
pub open spec fn seed_entry(line: Seq<char>) -> Option<(Seq<char>, u32)> {
    match dictionary_line(line) {
        Some((word, count)) => Some((sanitized(word), count)),
        None => None,
    }
}

/// The contents of the dictionary that `lines` seed. Reading stops at the
/// first line that gives no entry, and of two lines with the same word the
/// earlier one gives the count.
pub open spec fn seeded(lines: Seq<Seq<char>>) -> Map<Seq<char>, u32>
    decreases lines.len(),
{
    if lines.len() == 0 {
        Map::empty()
    } else {
        match seed_entry(lines[0]) {
            Some((word, count)) => seeded(lines.drop_first()).insert(word, count),
            None => Map::empty(),
        }
    }
}

/// The number of lines that are read when `lines` seed a dictionary: the
/// leading lines that give an entry.
pub open spec fn seed_lines(lines: Seq<Seq<char>>) -> nat
    decreases lines.len(),
{
    if lines.len() == 0 || seed_entry(lines[0]) is None {
        0
    } else {
        1 + seed_lines(lines.drop_first())
    }
}

/// The word of the entry that the line at index `i` gives.
pub open spec fn seed_word(lines: Seq<Seq<char>>, i: int) -> Seq<char> {
    seed_entry(lines[i]).unwrap().0
}

/// The count of the entry that the line at index `i` gives.
pub open spec fn seed_count(lines: Seq<Seq<char>>, i: int) -> u32 {
    seed_entry(lines[i]).unwrap().1
}

/// `word` is the sanitized form of some word.
pub open spec fn is_sanitized(word: Seq<char>) -> bool {
    exists|raw: Seq<char>| #[trigger] sanitized(raw) == word
}

/// Every word that `counts` holds is the sanitized form of some word.
pub open spec fn all_sanitized(counts: Map<Seq<char>, u32>) -> bool {
    forall|word: Seq<char>| #[trigger] counts.contains_key(word) ==> is_sanitized(word)
}

/// The word that a line of text is counted under: its first word, sanitized.
pub open spec fn counted_word(line: Seq<char>) -> Seq<char> {
    sanitized(first_word(line))
}

/// The number of lines that are counted under `word`.
pub open spec fn occurrences(lines: Seq<Seq<char>>, word: Seq<char>) -> nat
    decreases lines.len(),
{
    if lines.len() == 0 {
        0
    } else {
        occurrences(lines.drop_last(), word) + if counted_word(lines.last()) == word {
            1nat
        } else {
            0nat
        }
    }
}

/// No count leaves the range of `u32` when the words of `lines` are counted
/// on top of `counts`.
pub open spec fn countable(counts: Map<Seq<char>, u32>, lines: Seq<Seq<char>>) -> bool {
    forall|word: Seq<char>| count_of(counts, word) + #[trigger] occurrences(lines, word) <= u32::MAX
}

/// `counts` after the words of `lines` were counted: each word has the count
/// it had, or zero, plus the number of lines that are counted under it.
pub open spec fn updated(counts: Map<Seq<char>, u32>, lines: Seq<Seq<char>>) -> Map<Seq<char>, u32> {
    Map::new(
        |word: Seq<char>| counts.contains_key(word) || occurrences(lines, word) > 0,
        |word: Seq<char>| (count_of(counts, word) + occurrences(lines, word)) as u32,
    )
}

/// A count that cannot be raised: the line at index `line` is counted under
/// a word whose count is `u32::MAX` already.
#[derive(Debug, Clone, Copy, PartialEq, Eq)]
pub struct CountOverflow {
    /// The index of the line that could not be counted.
    pub line: usize,
}

/// Reading one more line, after lines that all gave an entry, does to the
/// contents what `seed_line` does to a dictionary.
pub proof fn lemma_seeded_push(lines: Seq<Seq<char>>, line: Seq<char>)
    requires
        forall|i: int| 0 <= i < lines.len() ==> (#[trigger] seed_entry(lines[i])) is Some,
    ensures
        seeded(lines.push(line)) == (match seed_entry(line) {
            Some((word, count)) => or_inserted(seeded(lines), word, count),
            None => seeded(lines),
        }),
    decreases lines.len(),
{
    let longer = lines.push(line);
    if lines.len() == 0 {
        assert(longer.drop_first() =~= lines);
    } else {
        // The first line gives its entry to both sides; the rest is the
        // same statement about the lines after it.
        let tail = lines.drop_first();
        lemma_seeded_push(tail, line);
        assert(longer.drop_first() =~= tail.push(line));
    }
}

/// Lines after the first one that gives no entry seed nothing: given where
/// that line stands.
proof fn lemma_seeded_stops(lines: Seq<Seq<char>>, k: int)
    requires
        0 <= k <= lines.len(),
        forall|i: int| 0 <= i < k ==> (#[trigger] seed_entry(lines[i])) is Some,
        k < lines.len() ==> seed_entry(lines[k]) is None,
    ensures
        seeded(lines) == seeded(lines.take(k)),
    decreases k,
{
    if k == lines.len() {
        assert(lines.take(k) =~= lines);
    } else if k > 0 {
        let tail = lines.drop_first();
        lemma_seeded_stops(tail, k - 1);
        assert(lines.take(k).drop_first() =~= tail.take(k - 1));
    }
}

/// Counting one more line does to the contents what `count_line` does to a
/// dictionary.
pub proof fn lemma_updated_push(counts: Map<Seq<char>, u32>, lines: Seq<Seq<char>>, line: Seq<char>)
    requires
        countable(counts, lines.push(line)),
    ensures
        countable(counts, lines),
        count_of(updated(counts, lines), counted_word(line)) < u32::MAX,
        updated(counts, lines.push(line)) == incremented(updated(counts, lines), counted_word(line)),
{
    let longer = lines.push(line);
    let word = counted_word(line);
    assert(longer.drop_last() =~= lines);
    assert forall|w: Seq<char>| count_of(counts, w) + #[trigger] occurrences(lines, w)
        <= u32::MAX by {
        assert(count_of(counts, w) + occurrences(longer, w) <= u32::MAX);
    }
    assert(count_of(counts, word) + occurrences(longer, word) <= u32::MAX);
}

/// Reads one line of the dictionary into `dictionary`.
///
/// A line that gives an entry adds it, unless the dictionary holds the word
/// already, and the result is `true`. Any other line changes nothing, and the
/// result is `false`: reading stops there.
pub fn seed_line(dictionary: &mut Dictionary, line: &String) -> (read: bool)
    ensures
        read == (seed_entry(line@) is Some),
        final(dictionary)@ == (match seed_entry(line@) {
            Some((word, count)) => or_inserted(old(dictionary)@, word, count),
            None => old(dictionary)@,
        }),
{
    match deconstruct_dictionary_line(line) {
        Some((word, count)) => {
            dictionary.insert_if_absent(sanitize_word(word), count);
            true
        },
        None => false,
    }
}

/// Counts the word of one line of text in `dictionary`.
///
/// Returns `false`, and changes nothing, when the count of the word is
/// `u32::MAX` already.
pub fn count_line(dictionary: &mut Dictionary, line: &String) -> (counted: bool)
    ensures
        counted == (count_of(old(dictionary)@, counted_word(line@)) < u32::MAX),
        final(dictionary)@ == (if counted {
            incremented(old(dictionary)@, counted_word(line@))
        } else {
            old(dictionary)@
        }),
{
    match get_word_from_line(line) {
        Some(word) => dictionary.increment(sanitize_word(word)),
        // Every line has a first word.
        None => true,
    }
}

/// Creates the dictionary that the lines of a dictionary file seed.
pub fn create_dictionary(lines: &Vec<String>) -> (r: Dictionary)
    ensures
        r@ == seeded(lines.deep_view()),
{
    let ghost all = lines.deep_view();
    let mut dictionary = Dictionary::new();
    let mut k: usize = 0;
    while k < lines.len()
        invariant
            all == lines.deep_view(),
            k <= lines.len(),
            forall|i: int| 0 <= i < k ==> (#[trigger] seed_entry(all[i])) is Some,
            dictionary@ == seeded(all.take(k as int)),
        decreases lines.len() - k,
    {
        if !seed_line(&mut dictionary, &lines[k]) {
            proof {
                lemma_seeded_stops(all, k as int);
            }
            return dictionary;
        }
        proof {
            let read = all.take(k as int);
            assert(read.push(all[k as int]) =~= all.take(k + 1));
            lemma_seeded_push(read, all[k as int]);
        }
        k += 1;
    }
    proof {
        lemma_seeded_stops(all, k as int);
    }
    dictionary
}

/// Counts the words of the lines of a text in `dictionary`.
///
/// Counting stops at the first line whose word has the count `u32::MAX`
/// already; the error names that line, and the lines before it are counted.
pub fn update_dictionary(dictionary: &mut Dictionary, lines: &Vec<String>) -> (r: Result<
    (),
    CountOverflow,
>)
    ensures
        r is Ok <==> countable(old(dictionary)@, lines.deep_view()),
        match r {
            Ok(_) => final(dictionary)@ == updated(old(dictionary)@, lines.deep_view()),
            Err(overflow) => {
                &&& overflow.line < lines.len()
                &&& countable(old(dictionary)@, lines.deep_view().take(overflow.line as int))
                &&& !countable(old(dictionary)@, lines.deep_view().take(overflow.line + 1))
                &&& final(dictionary)@ == updated(
                    old(dictionary)@,
                    lines.deep_view().take(overflow.line as int),
                )
            },
        },
{
    let ghost all = lines.deep_view();
    let ghost start = dictionary@;
    let mut k: usize = 0;
    while k < lines.len()
        invariant
            all == lines.deep_view(),
            start == old(dictionary)@,
            k <= lines.len(),
            countable(start, all.take(k as int)),
            dictionary@ == updated(start, all.take(k as int)),
        decreases lines.len() - k,
    {
        let ghost counted = all.take(k as int);
        let ghost next = all.take(k + 1);
        let ghost word = counted_word(all[k as int]);
        proof {
            assert(next.drop_last() =~= counted);
        }
        if !count_line(dictionary, &lines[k]) {
            proof {
                // The word of this line is at the largest count: one more
                // occurrence does not fit, here or in the whole text.
                assert(count_of(start, word) + occurrences(next, word) > u32::MAX);
                lemma_countable_prefix(start, all, k + 1);
            }
            return Err(CountOverflow { line: k });
        }
        proof {
            assert forall|w: Seq<char>| count_of(start, w) + #[trigger] occurrences(next, w)
                <= u32::MAX by {
                assert(count_of(start, w) + occurrences(counted, w) <= u32::MAX);
            }
        }
        k += 1;
    }
    proof {
        assert(all.take(k as int) =~= all);
    }
    Ok(())
}

/// A word occurs in a text at most as often as the text has lines.
pub proof fn lemma_occurrences_bound(lines: Seq<Seq<char>>, word: Seq<char>)
    ensures
        occurrences(lines, word) <= lines.len(),
    decreases lines.len(),
{
    if lines.len() > 0 {
        lemma_occurrences_bound(lines.drop_last(), word);
    }
}

/// A word occurs in a prefix of a text at most as often as in the whole text.
pub proof fn lemma_occurrences_prefix(lines: Seq<Seq<char>>, k: int, word: Seq<char>)
    requires
        0 <= k <= lines.len(),
    ensures
        occurrences(lines.take(k), word) <= occurrences(lines, word),
    decreases lines.len() - k,
{
    if k == lines.len() {
        assert(lines.take(k) =~= lines);
    } else {
        lemma_occurrences_prefix(lines.drop_last(), k, word);
        assert(lines.drop_last().take(k) =~= lines.take(k));
    }
}

/// If a text can be counted, so can each of its prefixes.
pub proof fn lemma_countable_prefix(counts: Map<Seq<char>, u32>, lines: Seq<Seq<char>>, k: int)
    requires
        0 <= k <= lines.len(),
    ensures
        countable(counts, lines) ==> countable(counts, lines.take(k)),
{
    if countable(counts, lines) {
        assert forall|w: Seq<char>| count_of(counts, w) + #[trigger] occurrences(lines.take(k), w)
            <= u32::MAX by {
            lemma_occurrences_prefix(lines, k, w);
        }
    }
}

/// The lines that are read are the leading lines that give an entry: reading
/// stops at the end, or in front of the first line that gives none.
pub proof fn lemma_seed_lines(lines: Seq<Seq<char>>)
    ensures
        seed_lines(lines) <= lines.len(),
        forall|i: int| 0 <= i < seed_lines(lines) ==> (#[trigger] seed_entry(lines[i])) is Some,
        seed_lines(lines) < lines.len() ==> seed_entry(lines[seed_lines(lines) as int]) is None,
    decreases lines.len(),
{
    if lines.len() > 0 && seed_entry(lines[0]) is Some {
        let tail = lines.drop_first();
        lemma_seed_lines(tail);
        assert forall|i: int| 0 <= i < seed_lines(lines) implies (#[trigger] seed_entry(
            lines[i],
        )) is Some by {
            if i > 0 {
                assert(lines[i] == tail[i - 1]);
            }
        }
    }
}

/// Only the lines that are read seed the dictionary.
pub proof fn lemma_seeded_reads(lines: Seq<Seq<char>>)
    ensures
        seeded(lines) == seeded(lines.take(seed_lines(lines) as int)),
{
    lemma_seed_lines(lines);
    lemma_seeded_stops(lines, seed_lines(lines) as int);
}

/// A seeded dictionary holds the words of the lines that were read, and no
/// others.
pub proof fn lemma_seeded_words(lines: Seq<Seq<char>>, word: Seq<char>)
    ensures
        seeded(lines).contains_key(word) <==> exists|i: int|
            0 <= i < seed_lines(lines) && #[trigger] seed_word(lines, i) == word,
    decreases lines.len(),
{
    if lines.len() > 0 && seed_entry(lines[0]) is Some {
        let tail = lines.drop_first();
        lemma_seeded_words(tail, word);
        lemma_seed_lines(lines);
        if seeded(lines).contains_key(word) {
            if seed_word(lines, 0) != word {
                let i = choose|i: int| 0 <= i < seed_lines(tail) && #[trigger] seed_word(tail, i) == word;
                assert(seed_word(lines, i + 1) == word);
            }
        }
        if exists|i: int| 0 <= i < seed_lines(lines) && #[trigger] seed_word(lines, i) == word {
            let i = choose|i: int| 0 <= i < seed_lines(lines) && #[trigger] seed_word(lines, i) == word;
            if i > 0 {
                assert(seed_word(tail, i - 1) == word);
            }
        }
    }
}

/// Of the lines that were read, the first one with a given word gives the
/// count of that word.
pub proof fn lemma_seeded_first_wins(lines: Seq<Seq<char>>, i: int)
    requires
        0 <= i < seed_lines(lines),
        forall|j: int| 0 <= j < i ==> #[trigger] seed_word(lines, j) != seed_word(lines, i),
    ensures
        seeded(lines).contains_key(seed_word(lines, i)),
        seeded(lines)[seed_word(lines, i)] == seed_count(lines, i),
    decreases lines.len(),
{
    lemma_seed_lines(lines);
    if i > 0 {
        let tail = lines.drop_first();
        assert forall|j: int| 0 <= j < i - 1 implies #[trigger] seed_word(tail, j) != seed_word(
            tail,
            i - 1,
        ) by {
            assert(seed_word(lines, j + 1) != seed_word(lines, i));
        }
        lemma_seeded_first_wins(tail, i - 1);
        assert(seed_word(lines, 0) != seed_word(lines, i));
    }
}

/// Every word of a seeded dictionary is a sanitized word.
pub proof fn lemma_seeded_sanitized(lines: Seq<Seq<char>>)
    ensures
        all_sanitized(seeded(lines)),
    decreases lines.len(),
{
    if lines.len() > 0 && seed_entry(lines[0]) is Some {
        lemma_seeded_sanitized(lines.drop_first());
        assert(is_sanitized(seed_word(lines, 0))) by {
            assert(sanitized(dictionary_line(lines[0]).unwrap().0) == seed_word(lines, 0));
        }
    }
}

/// A word that occurs in a text is the counted word of one of its lines.
pub proof fn lemma_occurrences_positive(lines: Seq<Seq<char>>, word: Seq<char>)
    ensures
        occurrences(lines, word) > 0 <==> exists|i: int|
            0 <= i < lines.len() && counted_word(#[trigger] lines[i]) == word,
    decreases lines.len(),
{
    if lines.len() > 0 {
        let before = lines.drop_last();
        lemma_occurrences_positive(before, word);
        if occurrences(before, word) > 0 {
            let i = choose|i: int| 0 <= i < before.len() && counted_word(#[trigger] before[i]) == word;
            assert(lines[i] == before[i]);
        }
        if exists|i: int| 0 <= i < lines.len() && counted_word(#[trigger] lines[i]) == word {
            let i = choose|i: int| 0 <= i < lines.len() && counted_word(#[trigger] lines[i]) == word;
            if i < before.len() {
                assert(before[i] == lines[i]);
            }
        }
    }
}

/// A word occurs in two texts, one after the other, as often as in both
/// together.
pub proof fn lemma_occurrences_concat(a: Seq<Seq<char>>, b: Seq<Seq<char>>, word: Seq<char>)
    ensures
        occurrences(a + b, word) == occurrences(a, word) + occurrences(b, word),
    decreases b.len(),
{
    if b.len() > 0 {
        lemma_occurrences_concat(a, b.drop_last(), word);
        assert((a + b).drop_last() =~= a + b.drop_last());
    }
}

/// Counting the empty text changes nothing.
pub proof fn lemma_updated_nothing(counts: Map<Seq<char>, u32>)
    ensures
        countable(counts, Seq::<Seq<char>>::empty()),
        updated(counts, Seq::<Seq<char>>::empty()) == counts,
{
}

/// Counting only adds: every word stays, no count gets smaller, and the
/// words of a dictionary of sanitized words stay sanitized.
pub proof fn lemma_updated_only_adds(counts: Map<Seq<char>, u32>, lines: Seq<Seq<char>>)
    requires
        countable(counts, lines),
    ensures
        forall|word: Seq<char>| #[trigger]
            counts.contains_key(word) ==> updated(counts, lines).contains_key(word) && counts[word]
                <= updated(counts, lines)[word],
        all_sanitized(counts) ==> all_sanitized(updated(counts, lines)),
{
    if all_sanitized(counts) {
        assert forall|word: Seq<char>| #[trigger]
            updated(counts, lines).contains_key(word) implies is_sanitized(word) by {
            if !counts.contains_key(word) {
                lemma_occurrences_positive(lines, word);
                let i = choose|i: int| 0 <= i < lines.len() && counted_word(#[trigger] lines[i]) == word;
                assert(sanitized(first_word(lines[i])) == word);
            }
        }
    }
}

/// Counting one text and then another gives what counting both in one go
/// gives.
pub proof fn lemma_updated_twice(counts: Map<Seq<char>, u32>, a: Seq<Seq<char>>, b: Seq<Seq<char>>)
    requires
        countable(counts, a + b),
    ensures
        countable(counts, a),
        countable(updated(counts, a), b),
        updated(updated(counts, a), b) == updated(counts, a + b),
{
    assert forall|w: Seq<char>| count_of(counts, w) + #[trigger] occurrences(a, w) <= u32::MAX by {
        lemma_occurrences_concat(a, b, w);
    }
    assert forall|w: Seq<char>| count_of(updated(counts, a), w) + #[trigger] occurrences(b, w)
        <= u32::MAX by {
        lemma_occurrences_concat(a, b, w);
    }
    let once = updated(counts, a + b);
    let twice = updated(updated(counts, a), b);
    assert forall|w: Seq<char>|
        #![trigger twice.contains_key(w)]
        #![trigger once.contains_key(w)]
        twice.contains_key(w) == once.contains_key(w) && (once.contains_key(w) ==> twice[w]
            == once[w]) by {
        lemma_occurrences_concat(a, b, w);
    }
}

} // verus!
