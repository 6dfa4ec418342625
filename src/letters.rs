use vstd::prelude::*;

use crate::char_index::{char_to_index, index_to_char, is_letter, slot_of, letter_at, ALPHABET};
use crate::errors::TrieError;

verus! {

/// What a multiset of letters holds: a count for each of the 26 letter
/// slots and a count of wildcards.
pub struct LetterBag {
    pub counts: Seq<nat>,
    pub wild: nat,
}

/// Every character is an ASCII letter or the wildcard `?`.
pub open spec fn is_letter_input(s: Seq<char>) -> bool {
    forall|i: int| 0 <= i < s.len() ==> is_letter(#[trigger] s[i]) || s[i] == '?'
}

/// The bag with nothing in it.
pub open spec fn empty_bag() -> LetterBag {
    LetterBag { counts: Seq::new(26, |i: int| 0nat), wild: 0 }
}

/// The bag that a string of letters and wildcards describes, letters case folded.
pub open spec fn bag_of(s: Seq<char>) -> LetterBag
    decreases s.len(),
{
    if s.len() == 0 {
        empty_bag()
    } else {
        let b = bag_of(s.drop_last());
        let c = s.last();
        if c == '?' {
            LetterBag { counts: b.counts, wild: b.wild + 1 }
        } else {
            LetterBag { counts: b.counts.update(slot_of(c), b.counts[slot_of(c)] + 1), wild: b.wild }
        }
    }
}

/// Sum of a sequence of counts.
pub open spec fn sum(s: Seq<nat>) -> nat
    decreases s.len(),
{
    if s.len() == 0 {
        0
    } else {
        sum(s.drop_last()) + s.last()
    }
}

/// Number of letters and wildcards in a bag.
pub open spec fn total(b: LetterBag) -> nat {
    sum(b.counts) + b.wild
}

/// Slot `i` can be offered: by a real copy of its letter, or else by a wildcard.
pub open spec fn available(b: LetterBag, i: int) -> bool {
    b.counts[i] > 0 || b.wild > 0
}

/// The bag left after offering slot `i`: one copy of its letter is used when
/// there is one, otherwise one wildcard.
pub open spec fn residual(b: LetterBag, i: int) -> LetterBag {
    if b.counts[i] > 0 {
        LetterBag { counts: b.counts.update(i, (b.counts[i] - 1) as nat), wild: b.wild }
    } else {
        LetterBag { counts: b.counts, wild: (b.wild - 1) as nat }
    }
}

/// The first slot at or after `k` that can be offered, or 26 when none is.
pub open spec fn next_available(b: LetterBag, k: int) -> int
    decreases 26 - k,
{
    if k >= 26 {
        26
    } else if available(b, k) {
        k
    } else {
        next_available(b, k + 1)
    }
}

/// Every letter count of `small` is at most the one of `big`; wildcards are not compared.
pub open spec fn bag_contains(big: LetterBag, small: LetterBag) -> bool {
    forall|i: int| 0 <= i < 26 ==> #[trigger] small.counts[i] <= big.counts[i]
}

pub proof fn lemma_sum_update(s: Seq<nat>, i: int, v: nat)
    requires
        0 <= i < s.len(),
    ensures
        sum(s.update(i, v)) + s[i] == sum(s) + v,
    decreases s.len(),
{
    if i < s.len() - 1 {
        lemma_sum_update(s.drop_last(), i, v);
        assert(s.update(i, v).drop_last() =~= s.drop_last().update(i, v));
    } else {
        assert(s.update(i, v).drop_last() =~= s.drop_last());
    }
}

pub proof fn lemma_sum_zeros(n: nat)
    ensures
        sum(Seq::new(n, |i: int| 0nat)) == 0,
    decreases n,
{
    if n > 0 {
        lemma_sum_zeros((n - 1) as nat);
        assert(Seq::new(n, |i: int| 0nat).drop_last() =~= Seq::new((n - 1) as nat, |i: int| 0nat));
    }
}

/// A bag read from a string has 26 slots.
pub proof fn lemma_bag_of_slots(s: Seq<char>)
    requires
        is_letter_input(s),
    ensures
        bag_of(s).counts.len() == 26,
    decreases s.len(),
{
    if s.len() > 0 {
        lemma_bag_of_slots(s.drop_last());
    }
}

/// Parsing a string of letters and wildcards keeps every character: the counts
/// of all slots and the wildcards add up to the string's length.
pub proof fn lemma_bag_of_total(s: Seq<char>)
    requires
        is_letter_input(s),
    ensures
        bag_of(s).counts.len() == 26,
        total(bag_of(s)) == s.len(),
    decreases s.len(),
{
    if s.len() == 0 {
        lemma_sum_zeros(26);
    } else {
        let t = s.drop_last();
        assert(is_letter_input(t)) by {
            assert forall|i: int| 0 <= i < t.len() implies is_letter(#[trigger] t[i]) || t[i] == '?' by {
                assert(t[i] == s[i]);
            }
        }
        lemma_bag_of_total(t);
        let b = bag_of(t);
        let c = s.last();
        assert(is_letter(s[s.len() - 1]) || s[s.len() - 1] == '?');
        if c != '?' {
            lemma_sum_update(b.counts, slot_of(c), b.counts[slot_of(c)] + 1);
        }
    }
}

/// A tried letter together with the letters left once it is used.
pub struct Letter(pub char, pub Letters);

/// A multiset of letters plus a number of wildcards.
#[derive(Debug, Clone, Copy)]
pub struct Letters {
    array: [usize; 26],
    wild: usize,
}

impl View for Letters {
    type V = LetterBag;

    closed spec fn view(&self) -> LetterBag {
        LetterBag { counts: self.array@.map_values(|c: usize| c as nat), wild: self.wild as nat }
    }
}

impl Letters {
    /// Letters always count 26 slots.
    pub proof fn lemma_slots(&self)
        ensures
            self@.counts.len() == 26,
    {
    }

    /// Reads letters (either case) and `?` wildcards; any other character fails.
    pub fn from_string(s: String) -> (r: Result<Letters, TrieError>)
        requires
            s@.len() <= usize::MAX,
        ensures
            r is Ok <==> is_letter_input(s@),
            r is Ok ==> r->Ok_0@ == bag_of(s@),
            r is Err ==> r->Err_0 == TrieError::NonAlphabeticIndexError,
    {
        let mut letters = Letters { array: [0usize; 26], wild: 0 };
        let ghost mut n: int = 0;
        assert(letters@.counts =~= empty_bag().counts);
        for c in it: s.chars()
            invariant
                it.seq() == s@,
                n == it.index(),
                0 <= n <= s@.len(),
                s@.len() <= usize::MAX,
                is_letter_input(s@.take(n)),
                letters@ == bag_of(s@.take(n)),
                forall|k: int| 0 <= k < 26 ==> letters.array[k] <= n,
                letters.wild <= n,
        {
            proof {
                assert(c == s@[n]);
                assert(s@.take(n + 1).drop_last() =~= s@.take(n));
                assert(s@.take(n + 1).last() == c);
            }
            if c != '?' {
                match char_to_index(c) {
                    Ok(index) => {
                        let v = letters.array[index] + 1;
                        letters.array[index] = v;
                        proof {
                            assert(letters@.counts =~= bag_of(s@.take(n + 1)).counts);
                        }
                    },
                    Err(e) => {
                        proof {
                            assert(s@[n] == c);
                            assert(!is_letter_input(s@));
                        }
                        return Err(e);
                    },
                }
            } else {
                letters.wild = letters.wild + 1;
            }
            proof {
                assert forall|i: int| 0 <= i < n + 1 implies is_letter(#[trigger] s@.take(n + 1)[i])
                    || s@.take(n + 1)[i] == '?' by {
                    if i < n {
                        assert(s@.take(n + 1)[i] == s@.take(n)[i]);
                    }
                }
                n = n + 1;
            }
        }
        proof {
            assert(s@.take(n) =~= s@);
        }
        Ok(letters)
    }

    /// True when every letter count of `other` is at most the one of `self`.
    /// Wildcards are not looked at.
    pub fn contains(&self, other: &Letters) -> (r: bool)
        ensures
            r == bag_contains(self@, other@),
    {
        let mut i: usize = 0;
        while i < ALPHABET
            invariant
                i <= 26,
                forall|k: int| 0 <= k < i ==> other@.counts[k] <= self@.counts[k],
            decreases 26 - i,
        {
            if other.array[i] > self.array[i] {
                proof {
                    assert(other@.counts[i as int] > self@.counts[i as int]);
                }
                return false;
            }
            proof {
                assert(other@.counts[i as int] <= self@.counts[i as int]);
            }
            i = i + 1;
        }
        true
    }

    /// Offers the slots of these letters one by one, in alphabetical order.
    pub fn into_iter(self) -> (r: LettersIter)
        ensures
            r.position() == 0,
            r.rest() == self@,
    {
        LettersIter::new(self)
    }
}

/// Walks the 26 letter slots of a `Letters` in order.
pub struct LettersIter {
    index: usize,
    letters: Letters,
}

impl LettersIter {
    /// The next slot to look at.
    pub closed spec fn position(&self) -> int {
        self.index as int
    }

    /// The letters that are being walked; they never change.
    pub closed spec fn rest(&self) -> LetterBag {
        self.letters@
    }

    pub proof fn lemma_position_nonneg(&self)
        ensures
            self.position() >= 0,
    {
    }

    pub fn new(letters: Letters) -> (r: LettersIter)
        ensures
            r.position() == 0,
            r.rest() == letters@,
    {
        LettersIter { index: 0, letters }
    }

    /// Offers the first available slot from the current position on, with the
    /// letters that remain once it is used, and moves past it. A slot is offered
    /// through a real copy of its letter when there is one, otherwise through a
    /// wildcard, never both.
    pub fn next(&mut self) -> (r: Option<Letter>)
        requires
            old(self).position() <= 26,
        ensures
            final(self).rest() == old(self).rest(),
            ({
                let j = next_available(old(self).rest(), old(self).position());
                if j < 26 {
                    &&& r is Some
                    &&& r->Some_0.0 == letter_at(j)
                    &&& r->Some_0.1@ == residual(old(self).rest(), j)
                    &&& final(self).position() == j + 1
                } else {
                    r is None && final(self).position() == 26
                }
            }),
    {
        while self.index < ALPHABET
            invariant
                self.index <= 26,
                self.letters == old(self).letters,
                next_available(old(self).rest(), old(self).position())
                    == next_available(self.rest(), self.position()),
            decreases 26 - self.index,
        {
            let i = self.index;
            let c = match index_to_char(i) {
                Ok(c) => c,
                Err(_) => {
                    return None;
                },
            };
            if self.letters.array[i] > 0 {
                let mut remaining = self.letters;
                let v = remaining.array[i] - 1;
                remaining.array[i] = v;
                self.index = i + 1;
                proof {
                    assert(remaining@.counts =~= residual(self.rest(), i as int).counts);
                }
                return Some(Letter(c, remaining));
            } else if self.letters.wild > 0 {
                let mut remaining = self.letters;
                remaining.wild = remaining.wild - 1;
                self.index = i + 1;
                proof {
                    assert(remaining@.counts =~= residual(self.rest(), i as int).counts);
                }
                return Some(Letter(c, remaining));
            }
            self.index = i + 1;
        }
        None
    }
}

} // verus!
