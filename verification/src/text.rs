//! What a line holds: the fields of a dictionary line, which single spaces
//! separate, and the first word of a line of text, which whitespace delimits.
use vstd::prelude::*;
use vstd::std_specs::iter::IteratorSpec;
use vstd::utf8::encode_utf8;
use crate::number::{decimal_text, is_digit, lemma_decimal_text, parse_count, parsed_count};

verus! {

/// The character that separates the fields of a dictionary line.
pub const WHITESPACE: char = ' ';

/// The first field of a line: everything before its first separator, or the
/// whole line when it has none. Two separators in a row enclose an empty field.
pub open spec fn first_field(line: Seq<char>) -> Seq<char> {
    match line.index_of_first(WHITESPACE) {
        Some(i) => line.take(i),
        None => line,
    }
}

/// What follows the first separator of a line, if it has one.
pub open spec fn after_first_field(line: Seq<char>) -> Option<Seq<char>> {
    match line.index_of_first(WHITESPACE) {
        Some(i) => Some(line.skip(i + 1)),
        None => None,
    }
}

/// The second field of a line, if it has one.
pub open spec fn second_field(line: Seq<char>) -> Option<Seq<char>> {
    match after_first_field(line) {
        Some(rest) => Some(first_field(rest)),
        None => None,
    }
}

/// The word and the count that a dictionary line gives: its first field, and
/// the count that its second field spells. A line without a second field, or
/// whose second field spells no count, gives nothing.
pub open spec fn dictionary_line(line: Seq<char>) -> Option<(Seq<char>, u32)> {
    match second_field(line) {
        Some(value) => match parsed_count(value) {
            Some(count) => Some((first_field(line), count)),
            None => None,
        },
        None => None,
    }
}

/// The first field of a line is the longest prefix of it that holds no
/// separator.
pub proof fn lemma_first_field(line: Seq<char>)
    ensures
        first_field(line).is_prefix_of(line),
        !first_field(line).contains(WHITESPACE),
        first_field(line).len() < line.len() ==> line[first_field(line).len() as int]
            == WHITESPACE,
{
    line.index_of_first_ensures(WHITESPACE);
}

/// A prefix of a line that holds no separator, and that is either the whole
/// line or followed by a separator, is the first field of the line.
pub proof fn lemma_first_field_unique(line: Seq<char>, n: int)
    requires
        0 <= n <= line.len(),
        forall|j: int| 0 <= j < n ==> line[j] != WHITESPACE,
        n < line.len() ==> line[n] == WHITESPACE,
    ensures
        first_field(line) == line.take(n),
        n < line.len() ==> line.index_of_first(WHITESPACE) == Some(n),
        n == line.len() ==> line.index_of_first(WHITESPACE) is None,
{
    line.index_of_first_ensures(WHITESPACE);
}

/// A word without separator, one separator, and a count written in decimal
/// make a dictionary line that gives that word and that count.
pub proof fn lemma_dictionary_line_of_entry(word: Seq<char>, count: u32)
    requires
        !word.contains(WHITESPACE),
    ensures
        dictionary_line(word + seq![WHITESPACE] + decimal_text(count as nat)) == Some(
            (word, count),
        ),
{
    let value = decimal_text(count as nat);
    let line = word + seq![WHITESPACE] + value;
    lemma_decimal_text(count as nat);
    assert forall|j: int| 0 <= j < word.len() implies line[j] != WHITESPACE by {
        assert(word.contains(line[j]));
    }
    lemma_first_field_unique(line, word.len() as int);
    assert(line.take(word.len() as int) =~= word);
    assert(line.skip(word.len() as int + 1) =~= value);
    assert forall|j: int| 0 <= j < value.len() implies value[j] != WHITESPACE by {
        assert(is_digit(value[j]));
    }
    lemma_first_field_unique(value, value.len() as int);
    assert(value.take(value.len() as int) =~= value);
}

/// The whitespace characters: the code points with the Unicode property
/// `White_Space`, the tab and the space among them.
pub open spec fn is_whitespace(c: char) -> bool {
    ||| '\u{9}' <= c <= '\u{d}'
    ||| c == ' '
    ||| c == '\u{85}'
    ||| c == '\u{a0}'
    ||| c == '\u{1680}'
    ||| '\u{2000}' <= c <= '\u{200a}'
    ||| c == '\u{2028}'
    ||| c == '\u{2029}'
    ||| c == '\u{202f}'
    ||| c == '\u{205f}'
    ||| c == '\u{3000}'
}

/// The first position at or after `from` that holds no whitespace, or the
/// length of `line` when only whitespace follows.
pub open spec fn word_start(line: Seq<char>, from: int) -> int
    decreases line.len() - from,
{
    if 0 <= from < line.len() && is_whitespace(line[from]) {
        word_start(line, from + 1)
    } else {
        from
    }
}

/// The first position at or after `from` that holds whitespace, or the length
/// of `line` when no whitespace follows.
pub open spec fn word_end(line: Seq<char>, from: int) -> int
    decreases line.len() - from,
{
    if 0 <= from < line.len() && !is_whitespace(line[from]) {
        word_end(line, from + 1)
    } else {
        from
    }
}

/// The first word of a line: its first maximal run of characters that are not
/// whitespace. It is empty where the line holds no such character.
pub open spec fn first_word(line: Seq<char>) -> Seq<char> {
    let start = word_start(line, 0);
    line.subrange(start, word_end(line, start))
}

/// Where the search for the start of a word comes to rest: only whitespace
/// was passed, and what stands there is none.
pub proof fn lemma_word_start(line: Seq<char>, from: int)
    requires
        0 <= from <= line.len(),
    ensures
        from <= word_start(line, from) <= line.len(),
        forall|j: int| from <= j < word_start(line, from) ==> is_whitespace(#[trigger] line[j]),
        word_start(line, from) < line.len() ==> !is_whitespace(line[word_start(line, from)]),
    decreases line.len() - from,
{
    if from < line.len() && is_whitespace(line[from]) {
        lemma_word_start(line, from + 1);
    }
}

/// Where the search for the end of a word comes to rest: no whitespace was
/// passed, and what stands there is whitespace.
pub proof fn lemma_word_end(line: Seq<char>, from: int)
    requires
        0 <= from <= line.len(),
    ensures
        from <= word_end(line, from) <= line.len(),
        forall|j: int| from <= j < word_end(line, from) ==> !is_whitespace(#[trigger] line[j]),
        word_end(line, from) < line.len() ==> is_whitespace(line[word_end(line, from)]),
    decreases line.len() - from,
{
    if from < line.len() && !is_whitespace(line[from]) {
        lemma_word_end(line, from + 1);
    }
}

/// The first word of a line holds no whitespace, only whitespace stands
/// before it, and it ends at whitespace or at the end of the line. It is
/// empty only where the whole line is whitespace.
pub proof fn lemma_first_word(line: Seq<char>)
    ensures
        forall|j: int| 0 <= j < first_word(line).len() ==> !is_whitespace(#[trigger] first_word(line)[j]),
        first_word(line).len() == 0 <==> forall|j: int|
            0 <= j < line.len() ==> is_whitespace(#[trigger] line[j]),
        ({
            let start = word_start(line, 0);
            let end = word_end(line, start);
            &&& 0 <= start <= end <= line.len()
            &&& first_word(line).len() == end - start
            &&& forall|j: int| 0 <= j < start ==> is_whitespace(#[trigger] line[j])
            &&& end < line.len() ==> is_whitespace(line[end])
        }),
{
    let start = word_start(line, 0);
    lemma_word_start(line, 0);
    lemma_word_end(line, start);
    let end = word_end(line, start);
    assert forall|j: int| 0 <= j < first_word(line).len() implies !is_whitespace(
        #[trigger] first_word(line)[j],
    ) by {
        assert(first_word(line)[j] == line[start + j]);
    }
    if first_word(line).len() == 0 {
        assert(start == line.len());
    }
}

/// A run of characters without whitespace that only whitespace stands before,
/// and that ends at whitespace or at the end of the line, is the first word
/// of the line. An empty run is, where the whole line is whitespace.
pub proof fn lemma_first_word_unique(line: Seq<char>, start: int, end: int)
    requires
        0 <= start <= end <= line.len(),
        forall|j: int| 0 <= j < start ==> is_whitespace(#[trigger] line[j]),
        forall|j: int| start <= j < end ==> !is_whitespace(#[trigger] line[j]),
        end < line.len() ==> is_whitespace(line[end]),
        start == end ==> start == line.len(),
    ensures
        word_start(line, 0) == start,
        word_end(line, start) == end,
        first_word(line) == line.subrange(start, end),
{
    lemma_word_start_at(line, 0, start);
    lemma_word_end_at(line, start, end);
}

/// The search for the start of a word passes over whitespace.
proof fn lemma_word_start_at(line: Seq<char>, from: int, start: int)
    requires
        0 <= from <= start <= line.len(),
        forall|j: int| from <= j < start ==> is_whitespace(#[trigger] line[j]),
        start < line.len() ==> !is_whitespace(line[start]),
    ensures
        word_start(line, from) == start,
    decreases start - from,
{
    if from < start {
        lemma_word_start_at(line, from + 1, start);
    }
}

/// The search for the end of a word passes over what is no whitespace.
proof fn lemma_word_end_at(line: Seq<char>, from: int, end: int)
    requires
        0 <= from <= end <= line.len(),
        forall|j: int| from <= j < end ==> !is_whitespace(#[trigger] line[j]),
        end < line.len() ==> is_whitespace(line[end]),
    ensures
        word_end(line, from) == end,
    decreases end - from,
{
    if from < end {
        lemma_word_end_at(line, from + 1, end);
    }
}

/// A text has at most as many characters as its encoding has bytes.
proof fn lemma_chars_within_bytes(s: Seq<char>)
    ensures
        s.len() <= encode_utf8(s).len(),
    decreases s.len(),
{
    if s.len() > 0 {
        lemma_chars_within_bytes(s.drop_first());
    }
}

/// The position of the first separator in `text`, if there is one.
fn first_separator(text: &str) -> (r: Option<usize>)
    ensures
        match r {
            Some(i) => i < text@.len() && text@.index_of_first(WHITESPACE) == Some(i as int),
            None => text@.index_of_first(WHITESPACE) is None,
        },
{
    let bound = text.as_bytes().len();
    proof {
        lemma_chars_within_bytes(text@);
    }
    let mut rest = text.chars();
    let mut k: usize = 0;
    loop
        invariant
            text@.len() <= bound,
            k <= text@.len(),
            rest.remaining() == text@.skip(k as int),
            forall|j: int| 0 <= j < k ==> text@[j] != WHITESPACE,
        decreases text@.len() - k,
    {
        match rest.next() {
            None => {
                proof {
                    lemma_first_field_unique(text@, k as int);
                }
                return None;
            },
            Some(c) => {
                if c == WHITESPACE {
                    proof {
                        lemma_first_field_unique(text@, k as int);
                    }
                    return Some(k);
                }
                k = k + 1;
            },
        }
    }
}

/// The first field of `text`, borrowed from it.
fn leading_field(text: &str) -> (r: &str)
    ensures
        r@ == first_field(text@),
{
    match first_separator(text) {
        Some(i) => text.substring_char(0, i),
        None => text,
    }
}

/// Tells whether `c` is a whitespace character.
pub fn is_whitespace_char(c: char) -> (r: bool)
    ensures
        r == is_whitespace(c),
{
    ('\u{9}' <= c && c <= '\u{d}')
        || c == ' '
        || c == '\u{85}'
        || c == '\u{a0}'
        || c == '\u{1680}'
        || ('\u{2000}' <= c && c <= '\u{200a}')
        || c == '\u{2028}'
        || c == '\u{2029}'
        || c == '\u{202f}'
        || c == '\u{205f}'
        || c == '\u{3000}'
}

/// Finds where the first word of `text` starts and where it ends.
fn first_word_bounds(text: &str) -> (r: (usize, usize))
    ensures
        r.0 == word_start(text@, 0),
        r.1 == word_end(text@, r.0 as int),
        r.0 <= r.1 <= text@.len(),
{
    let bound = text.as_bytes().len();
    proof {
        lemma_chars_within_bytes(text@);
    }
    let mut rest = text.chars();
    let mut start: usize = 0;
    let mut k: usize = 0;
    loop
        invariant
            text@.len() <= bound,
            start <= k <= text@.len(),
            rest.remaining() == text@.skip(k as int),
            forall|j: int| 0 <= j < start ==> is_whitespace(#[trigger] text@[j]),
            forall|j: int| start <= j < k ==> !is_whitespace(#[trigger] text@[j]),
        decreases text@.len() - k,
    {
        match rest.next() {
            None => {
                proof {
                    lemma_first_word_unique(text@, start as int, k as int);
                }
                return (start, k);
            },
            Some(c) => {
                if is_whitespace_char(c) {
                    if start < k {
                        proof {
                            lemma_first_word_unique(text@, start as int, k as int);
                        }
                        return (start, k);
                    }
                    start = k + 1;
                }
                k = k + 1;
            },
        }
    }
}

/// The word that a line of text is counted under, before it is sanitized: the
/// first run of characters of the line that are not whitespace. Every line
/// has one: it is empty where the line holds whitespace only, or nothing.
pub fn get_word_from_line(line: &String) -> (r: Option<&str>)
    ensures
        r matches Some(word) && word@ == first_word(line@),
{
    let text = line.as_str();
    let (start, end) = first_word_bounds(text);
    Some(text.substring_char(start, end))
}

/// Deconstructs a dictionary line into its word and its count.
///
/// Returns `None` for a line that has no second field, the empty line among
/// them, and for one whose second field spells no count.
pub fn deconstruct_dictionary_line(line: &String) -> (r: Option<(&str, u32)>)
    ensures
        match r {
            Some((word, count)) => dictionary_line(line@) == Some((word@, count)),
            None => dictionary_line(line@) is None,
        },
{
    let text = line.as_str();
    if text.is_empty() {
        proof {
            text@.index_of_first_ensures(WHITESPACE);
        }
        return None;
    }
    let separator = match first_separator(text) {
        Some(i) => i,
        None => {
            return None;
        },
    };
    let word = text.substring_char(0, separator);
    let end = text.unicode_len();
    let rest = text.substring_char(separator + 1, end);
    let value = leading_field(rest);
    match parse_count(value) {
        Some(count) => Some((word, count)),
        None => None,
    }
}

} // verus!
