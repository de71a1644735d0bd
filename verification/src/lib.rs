//! Word-frequency counting.
//!
//! A dictionary maps sanitized words to counts. It is seeded from lines of the
//! form `word count`, updated by counting the first word of every line of a
//! text, and finally listed in word order, skipping the words whose count is
//! zero.
//!
//! - `text`: what a dictionary line gives, and the first word of a line of
//!   text.
//! - `number`: counts as decimal text, read and written.
//! - `sanitize`: the sanitized form of a word.
//! - `order`: the order in which words are listed.
//! - `dictionary`: the dictionary itself.
//! - `frequency`: seeding a dictionary and counting the words of a text.
//! - `report`: the lines that report the counts.
//! - `strings`: the contracts that are taken on trust.
pub mod dictionary;
pub mod frequency;
pub mod number;
pub mod order;
pub mod report;
pub mod sanitize;
pub mod strings;
pub mod text;
