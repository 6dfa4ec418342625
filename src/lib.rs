use vstd::prelude::*;

pub mod errors;
pub mod char_index;
pub mod letters;
pub mod node;
pub mod trie;
