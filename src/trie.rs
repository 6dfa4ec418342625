use vstd::prelude::*;

use crate::char_index::{char_to_index, is_letter, slot_of};
use crate::errors::TrieError;
use crate::letters::{Letters, LetterBag, bag_of, is_letter_input, lemma_bag_of_slots};
use crate::node::{
    Node, all_letters, same_word, words_of, spellable, lemma_spellable_letters, lemma_spellable_counts,
    lower_letters, shortfall, prefix_of, alike,
};

verus! {

/// A prefix tree of words over the 26 ASCII letters, case folded.
pub struct Trie {
    root: Node,
}

impl Trie {
    pub closed spec fn wf(&self) -> bool {
        self.root.wf()
    }

    /// The word `w` is stored (letters compared case aside).
    pub closed spec fn has(&self, w: Seq<char>) -> bool {
        self.root.has(w)
    }

    /// What a lookup of `w` gives.
    pub closed spec fn lookup(&self, w: Seq<char>) -> Result<bool, TrieError> {
        self.root.lookup(w)
    }

    /// The words that the letters of `b` spell, in search order.
    pub closed spec fn search(&self, b: LetterBag) -> Seq<Seq<char>> {
        self.root.search(b, Seq::empty())
    }

    /// Number of nodes, the root included.
    pub closed spec fn size(&self) -> nat {
        self.root.size()
    }

    /// The path of `w` exists in the trie.
    pub closed spec fn has_path(&self, w: Seq<char>) -> bool {
        self.root.has_path(w)
    }

    /// How many of the first `k` non-empty prefixes of `w` have no path yet.
    pub open spec fn missing_prefixes(&self, w: Seq<char>, k: int) -> nat
        decreases k,
    {
        if k <= 0 {
            0
        } else {
            self.missing_prefixes(w, k - 1) + if self.has_path(w.take(k)) {
                0nat
            } else {
                1nat
            }
        }
    }

    /// How many non-empty prefixes of `w` have no path yet: the nodes that
    /// storing `w` adds.
    pub open spec fn new_prefixes(&self, w: Seq<char>) -> nat {
        self.missing_prefixes(w, w.len() as int)
    }

    proof fn lemma_missing_prefixes(&self, w: Seq<char>, k: int)
        ensures
            self.missing_prefixes(w, k) == self.root.new_prefixes(w, k),
        decreases k,
    {
        if k > 0 {
            self.lemma_missing_prefixes(w, k - 1);
        }
    }

    /// The stored words are exactly the non-empty words of the list, case aside.
    pub open spec fn holds_exactly(&self, words: Seq<Seq<char>>) -> bool {
        forall|w: Seq<char>|
            all_letters(w) ==> (#[trigger] self.has(w) <==> exists|i: int|
                0 <= i < words.len() && words[i].len() > 0 && same_word(w, #[trigger] words[i]))
    }

    pub proof fn lemma_lookup_has(&self, w: Seq<char>)
        requires
            all_letters(w),
        ensures
            self.lookup(w) == Ok::<bool, TrieError>(self.has(w)),
    {
        self.root.lemma_lookup_has(w);
    }

    /// An empty trie.
    pub fn new() -> (r: Trie)
        ensures
            r.wf(),
            forall|w: Seq<char>| !(#[trigger] r.has(w)),
            forall|w: Seq<char>| #[trigger] r.has_path(w) <==> w.len() == 0,
            forall|w: Seq<char>| all_letters(w) ==> #[trigger] r.new_prefixes(w) == w.len(),
            r.size() == 1,
    {
        let root = Node::new();
        proof {
            assert forall|w: Seq<char>| !(#[trigger] root.has(w)) by {
                if w.len() > 0 && is_letter(w[0]) {
                    assert(root.child(slot_of(w[0])) is None);
                }
            }
            assert forall|w: Seq<char>| #[trigger] root.has_path(w) <==> w.len() == 0 by {
                if w.len() > 0 && is_letter(w[0]) {
                    assert(root.child(slot_of(w[0])) is None);
                }
            }
            assert forall|w: Seq<char>| all_letters(w) implies #[trigger] root.new_prefixes(w, w.len() as int) == w.len() by {
                if w.len() > 0 {
                    assert(is_letter(w[0]));
                    root.lemma_new_prefixes_step(w);
                }
            }
            root.lemma_size_empty();
        }
        let t = Trie { root };
        proof {
            assert forall|w: Seq<char>| all_letters(w) implies #[trigger] t.new_prefixes(w) == w.len() by {
                t.lemma_missing_prefixes(w, w.len() as int);
            }
        }
        t
    }

    /// Stores `word`, adding one node for each of its prefixes that has no
    /// path yet. Fails, changing nothing, when it holds a character that is
    /// not an ASCII letter.
    pub fn insert(&mut self, word: String) -> (r: Result<(), TrieError>)
        requires
            old(self).wf(),
        ensures
            final(self).wf(),
            all_letters(word@) ==> r is Ok,
            !all_letters(word@) ==> r == Err::<(), TrieError>(TrieError::NonAlphabeticIndexError) && *final(self) == *old(self),
            forall|w: Seq<char>| #[trigger] final(self).has(w) == (old(self).has(w) || (r is Ok && same_word(w, word@))),
            all_letters(word@) ==> final(self).size() == old(self).size() + old(self).new_prefixes(word@),
            all_letters(word@) ==> forall|w: Seq<char>| #[trigger] final(self).has_path(w) == (old(self).has_path(w) || prefix_of(w, word@)),
    {
        if !is_word(word.as_str()) {
            return Err(TrieError::NonAlphabeticIndexError);
        }
        proof {
            old(self).lemma_missing_prefixes(word@, word@.len() as int);
        }
        self.root.insert(word.as_str())
    }

    /// Whether `word` is stored. Fails when the lookup reaches a character
    /// that is not a letter; a missing prefix answers `false` first.
    pub fn find(&self, word: String) -> (r: Result<bool, TrieError>)
        requires
            self.wf(),
        ensures
            r == self.lookup(word@),
            all_letters(word@) ==> r == Ok::<bool, TrieError>(self.has(word@)),
    {
        self.root.find(word.as_str())
    }

    /// Every stored word that the letters and `?` wildcards of `letters` can
    /// spell, in search order. Fails on any other character.
    pub fn anagrams(&self, letters: String) -> (r: Result<Vec<String>, TrieError>)
        requires
            self.wf(),
            letters@.len() <= usize::MAX,
        ensures
            r is Ok <==> is_letter_input(letters@),
            r is Ok ==> words_of(r->Ok_0@) == self.search(bag_of(letters@)),
            r is Err ==> r->Err_0 == TrieError::NonAlphabeticIndexError,
    {
        let letters = match Letters::from_string(letters) {
            Ok(l) => l,
            Err(e) => {
                return Err(e);
            },
        };
        let words = self.root.anagrams(letters, String::new());
        Ok(words)
    }

    /// The root node, which stands for the empty prefix.
    pub fn root(&self) -> (r: &Node)
        ensures
            r.wf() == self.wf(),
            forall|w: Seq<char>| #[trigger] r.has(w) == self.has(w),
            r.size() == self.size(),
    {
        &self.root
    }

    /// Number of nodes, the root included.
    pub fn node_count(&self) -> (r: usize)
        requires
            self.wf(),
            self.size() <= usize::MAX,
        ensures
            r == self.size(),
    {
        self.root.node_count()
    }

    /// A trie holding the words of the list; blank words, and those with a
    /// character that is not a letter, are skipped.
    pub fn from_words(words: &Vec<String>) -> (r: Trie)
        ensures
            r.wf(),
            r.holds_exactly(words_of(words@)),
    {
        let mut t = Trie::new();
        let mut i: usize = 0;
        while i < words.len()
            invariant
                i <= words.len(),
                t.wf(),
                t.holds_exactly(words_of(words@.take(i as int))),
            decreases words.len() - i,
        {
            let ghost before = t;
            if words[i].as_str().unicode_len() > 0 {
                let _ = t.insert(words[i].clone());
            }
            proof {
                let prev = words_of(words@.take(i as int));
                let next = words_of(words@.take(i + 1));
                assert(next =~= prev.push(words@[i as int]@));
                assert forall|w: Seq<char>| all_letters(w) implies (#[trigger] t.has(w) <==> exists|k: int|
                    0 <= k < next.len() && next[k].len() > 0 && same_word(w, #[trigger] next[k])) by {
                    if t.has(w) {
                        if before.has(w) {
                            let k = choose|k: int| 0 <= k < prev.len() && prev[k].len() > 0 && same_word(w, #[trigger] prev[k]);
                            assert(next[k] == prev[k]);
                        } else {
                            assert(next[i as int] == words@[i as int]@);
                        }
                    }
                    if exists|k: int| 0 <= k < next.len() && next[k].len() > 0 && same_word(w, #[trigger] next[k]) {
                        let k = choose|k: int| 0 <= k < next.len() && next[k].len() > 0 && same_word(w, #[trigger] next[k]);
                        if k < i {
                            assert(prev[k] == next[k]);
                        } else {
                            assert(same_word(w, words@[i as int]@));
                            assert(all_letters(words@[i as int]@));
                        }
                    }
                }
            }
            i = i + 1;
        }
        proof {
            assert(words@.take(words.len() as int) =~= words@);
        }
        t
    }
}

/// `s` is made of ASCII letters only.
fn is_word(s: &str) -> (r: bool)
    ensures
        r == all_letters(s@),
{
    let ghost mut n: int = 0;
    for c in it: s.chars()
        invariant
            it.seq() == s@,
            n == it.index(),
            0 <= n <= s@.len(),
            all_letters(s@.take(n)),
    {
        proof {
            assert(c == s@[n]);
        }
        match char_to_index(c) {
            Ok(_) => {},
            Err(_) => {
                return false;
            },
        }
        proof {
            assert forall|i: int| 0 <= i < n + 1 implies is_letter(#[trigger] s@.take(n + 1)[i]) by {
                if i < n {
                    assert(s@.take(n + 1)[i] == s@.take(n)[i]);
                }
            }
            n = n + 1;
        }
    }
    proof {
        assert(s@.take(n) =~= s@);
    }
    true
}

/// Once a trie holds exactly the words of a list, looking up a word of
/// letters answers `true` when the word is on the list (case aside) and
/// `false` when it is not.
pub proof fn lemma_find_after_build(t: &Trie, words: Seq<Seq<char>>, w: Seq<char>)
    requires
        t.wf(),
        t.holds_exactly(words),
        all_letters(w),
    ensures
        t.lookup(w) == Ok::<bool, TrieError>(exists|i: int| 0 <= i < words.len() && words[i].len() > 0 && same_word(w, #[trigger] words[i])),
{
    t.lemma_lookup_has(w);
}

/// A search finds exactly the stored words that the letters spell (a letter
/// taken from its real copies while there are any, else from a wildcard), and
/// finds none of them twice.
pub proof fn lemma_anagrams_exact(t: &Trie, b: LetterBag)
    requires
        t.wf(),
    ensures
        forall|x: Seq<char>| #[trigger] t.search(b).contains(x) <==> (t.has(x) && spellable(x, b)),
        t.search(b).no_duplicates(),
{
    t.root.lemma_search_exact(b, Seq::empty());
    assert forall|x: Seq<char>| #[trigger] t.search(b).contains(x) <==> (t.has(x) && spellable(x, b)) by {
        assert(x.skip(0) =~= x);
        assert(x.take(0) =~= Seq::<char>::empty());
    }
}

/// The anagrams of a string of letters and wildcards are exactly the stored
/// words of lower-case letters whose copies of each letter beyond those in the
/// string add up to at most the string's wildcards.
pub proof fn lemma_anagrams_by_counts(t: &Trie, s: Seq<char>)
    requires
        t.wf(),
        is_letter_input(s),
    ensures
        forall|x: Seq<char>| #[trigger] t.search(bag_of(s)).contains(x) <==> (t.has(x) && lower_letters(x)
            && shortfall(x, bag_of(s), 26) <= bag_of(s).wild),
{
    lemma_anagrams_exact(t, bag_of(s));
    lemma_bag_of_slots(s);
    assert forall|x: Seq<char>| #[trigger] t.search(bag_of(s)).contains(x) <==> (t.has(x) && lower_letters(x)
        && shortfall(x, bag_of(s), 26) <= bag_of(s).wild) by {
        lemma_spellable_counts(x, bag_of(s));
    }
}

/// A stored word already has the paths of all its prefixes, in any case:
/// storing it again adds no node, no path and no word.
pub proof fn lemma_stored_word(t: &Trie, w: Seq<char>)
    requires
        t.wf(),
        all_letters(w),
        t.has(w),
    ensures
        t.new_prefixes(w) == 0,
        forall|v: Seq<char>| prefix_of(v, w) ==> #[trigger] t.has_path(v),
        forall|v: Seq<char>| same_word(v, w) ==> #[trigger] t.has(v),
{
    t.root.lemma_stored_word(w);
    t.lemma_missing_prefixes(w, w.len() as int);
}

/// Storing again a word that is already stored changes nothing that can be
/// seen: `after` is `before` once `insert` has stored `w` in it (the
/// requirements are what `insert` ensures), and both give the same words,
/// paths, node count, lookups and search results.
pub proof fn lemma_reinsert(before: &Trie, after: &Trie, w: Seq<char>)
    requires
        before.wf(),
        after.wf(),
        all_letters(w),
        before.has(w),
        forall|v: Seq<char>| #[trigger] after.has(v) == (before.has(v) || same_word(v, w)),
        forall|v: Seq<char>| #[trigger] after.has_path(v) == (before.has_path(v) || prefix_of(v, w)),
        after.size() == before.size() + before.new_prefixes(w),
    ensures
        after.size() == before.size(),
        forall|v: Seq<char>| #[trigger] after.has(v) == before.has(v),
        forall|v: Seq<char>| #[trigger] after.has_path(v) == before.has_path(v),
        forall|v: Seq<char>| #[trigger] after.lookup(v) == before.lookup(v),
        forall|b: LetterBag| #[trigger] after.search(b) == before.search(b),
{
    lemma_stored_word(before, w);
    assert(alike(after.root, before.root)) by {
        assert forall|v: Seq<char>| #[trigger] after.root.has(v) == before.root.has(v) by {
            assert(after.has(v) == before.has(v));
        }
        assert forall|v: Seq<char>| #[trigger] after.root.has_path(v) == before.root.has_path(v) by {
            assert(after.has_path(v) == before.has_path(v));
        }
    }
    assert forall|v: Seq<char>| #[trigger] after.lookup(v) == before.lookup(v) by {
        Node::lemma_alike_lookup(after.root, before.root, v);
    }
    assert forall|b: LetterBag| #[trigger] after.search(b) == before.search(b) by {
        Node::lemma_alike_search(after.root, before.root, b, Seq::empty());
    }
}

/// Two tries that hold the same words give the same search results, as
/// sets, for any letters: so does building a trie twice from one list.
pub proof fn lemma_same_words_same_results(t1: &Trie, t2: &Trie, words: Seq<Seq<char>>, b: LetterBag)
    requires
        t1.wf(),
        t2.wf(),
        t1.holds_exactly(words),
        t2.holds_exactly(words),
    ensures
        forall|x: Seq<char>| #[trigger] t1.search(b).contains(x) <==> t2.search(b).contains(x),
{
    lemma_anagrams_exact(t1, b);
    lemma_anagrams_exact(t2, b);
    assert forall|x: Seq<char>| #[trigger] t1.search(b).contains(x) <==> t2.search(b).contains(x) by {
        if spellable(x, b) {
            lemma_spellable_letters(x, b);
            assert(t1.has(x) == t2.has(x));
        }
    }
}

} // verus!
