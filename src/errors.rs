use vstd::prelude::*;

verus! {

/// Failures of the trie and of letter parsing.
#[derive(Debug, Clone, Copy, PartialEq, Eq, Structural)]
pub enum TrieError {
    /// A character that is neither an ASCII letter nor, where allowed, the wildcard `?`.
    NonAlphabeticIndexError,
}

} // verus!
