//! Frequency tables over line-oriented UTF-8 text.
//!
//! The library reads a byte buffer as a sequence of lines (terminated by
//! `\n` or `\r\n`), decodes each line as UTF-8, and counts the occurrences
//! of tokens: single characters, words (maximal runs of word characters),
//! or whole lines, as selected by [`CountOption`].  Invalid UTF-8 aborts
//! the whole operation with a [`DecodeError`]; no partial table is returned.

mod counter;
mod lines;
mod options;
mod table;
mod tokenize;

pub use counter::count;
pub use counter::DecodeError;
pub use options::CountOption;
pub use table::FreqTable;
