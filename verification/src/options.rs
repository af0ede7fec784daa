//! The counting mode: the granularity at which tokens are drawn from a line.

use vstd::prelude::*;

verus! {

/// Selects what [`crate::count`] counts: single characters, words, or
/// whole lines.
#[derive(Debug, Clone, Copy, PartialEq, Eq, Hash, Structural)]
pub enum CountOption {
    /// Every Unicode scalar value of a line is one token.
    Char,
    /// Every maximal run of word characters of a line is one token.
    Word,
    /// Every whole line (terminator stripped) is one token.
    Line,
}

impl Default for CountOption {
    /// The default mode counts words.
    fn default() -> (r: Self)
        ensures
            r == CountOption::Word,
    {
        CountOption::Word
    }
}

} // verus!
