use vstd::prelude::*;

use crate::errors::TrieError;

verus! {

/// Number of letter slots: one per ASCII letter, case folded.
pub const ALPHABET: usize = 26;

/// `c` is an ASCII letter, upper or lower case.
pub open spec fn is_letter(c: char) -> bool {
    ('a' <= c && c <= 'z') || ('A' <= c && c <= 'Z')
}

/// Slot of an ASCII letter: 0 for `a`/`A` up to 25 for `z`/`Z`.
pub open spec fn slot_of(c: char) -> int {
    if 'a' <= c && c <= 'z' {
        c as int - 'a' as int
    } else {
        c as int - 'A' as int
    }
}

/// The lower-case letter of a slot.
pub open spec fn letter_at(i: int) -> char {
    (i + 97) as char
}

pub proof fn lemma_letter_slot(i: int)
    requires
        0 <= i < 26,
    ensures
        is_letter(letter_at(i)),
        slot_of(letter_at(i)) == i,
        'a' <= letter_at(i) <= 'z',
{
}

/// Converts an ASCII letter to its slot; fails on any other character.
pub fn char_to_index(c: char) -> (r: Result<usize, TrieError>)
    ensures
        is_letter(c) ==> r == Ok::<usize, TrieError>(slot_of(c) as usize),
        !is_letter(c) ==> r == Err::<usize, TrieError>(TrieError::NonAlphabeticIndexError),
        r is Ok ==> r->Ok_0 < 26,
{
    if 'a' <= c && c <= 'z' {
        Ok((c as u32 - 'a' as u32) as usize)
    } else if 'A' <= c && c <= 'Z' {
        Ok((c as u32 - 'A' as u32) as usize)
    } else {
        Err(TrieError::NonAlphabeticIndexError)
    }
}

/// Converts a slot back to its lower-case letter; fails past the last slot.
pub fn index_to_char(i: usize) -> (r: Result<char, TrieError>)
    ensures
        i < 26 ==> r == Ok::<char, TrieError>(letter_at(i as int)),
        i >= 26 ==> r == Err::<char, TrieError>(TrieError::NonAlphabeticIndexError),
{
    if i < ALPHABET {
        Ok((i as u8 + 97u8) as char)
    } else {
        Err(TrieError::NonAlphabeticIndexError)
    }
}

} // verus!
