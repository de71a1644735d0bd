//! The report: one line for each word whose count is not zero.
use vstd::prelude::*;
use crate::dictionary::{listing_of, lists_nonzero, Dictionary};
use crate::number::{append_count, decimal_text};
use crate::strings::push_char;

verus! {

/// The line that reports a word with its count: the word, a colon, a space,
/// and the count in decimal.
pub open spec fn report_text(word: Seq<char>, count: u32) -> Seq<char> {
    word + seq![':', ' '] + decimal_text(count as nat)
}

/// The lines that report the entries of a listing, in the order of the
/// listing.
pub open spec fn reported(listing: Seq<(Seq<char>, u32)>) -> Seq<Seq<char>> {
    Seq::new(listing.len(), |i: int| report_text(listing[i].0, listing[i].1))
}

/// Writes the line that reports `word` with `count`.
pub fn report_line(word: &str, count: u32) -> (r: String)
    ensures
        r@ == report_text(word@, count),
{
    let mut line = word.to_owned();
    push_char(&mut line, ':');
    push_char(&mut line, ' ');
    append_count(&mut line, count);
    line
}

/// Writes the report of a dictionary: the lines that report the words whose
/// count is not zero, in word order.
pub fn report(dictionary: &Dictionary) -> (r: Vec<String>)
    ensures
        lists_nonzero(listing_of(dictionary@), dictionary@),
        r.deep_view() == reported(listing_of(dictionary@)),
{
    let entries = dictionary.nonzero_entries();
    let ghost listing = entries.deep_view();
    let mut lines: Vec<String> = Vec::new();
    let mut i: usize = 0;
    while i < entries.len()
        invariant
            listing == entries.deep_view(),
            i <= entries.len(),
            lines.len() == i,
            forall|k: int|
                0 <= k < i ==> (#[trigger] lines[k])@ == report_text(listing[k].0, listing[k].1),
        decreases entries.len() - i,
    {
        let line = report_line(entries[i].0.as_str(), entries[i].1);
        lines.push(line);
        i += 1;
    }
    lines
}

} // verus!
