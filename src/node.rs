use vstd::prelude::*;

use crate::char_index::{char_to_index, is_letter, slot_of, letter_at, lemma_letter_slot, ALPHABET};
use crate::errors::TrieError;
use crate::letters::{Letter, Letters, LetterBag, available, residual, next_available};

verus! {

/// Every character is an ASCII letter.
pub open spec fn all_letters(w: Seq<char>) -> bool {
    forall|i: int| 0 <= i < w.len() ==> is_letter(#[trigger] w[i])
}

/// `w` with each ASCII letter replaced by its lower-case form.
pub open spec fn fold(w: Seq<char>) -> Seq<char> {
    w.map_values(|c: char| letter_at(slot_of(c)))
}

/// The two strings are the same word of letters, case aside.
pub open spec fn same_word(w: Seq<char>, v: Seq<char>) -> bool {
    all_letters(w) && all_letters(v) && fold(w) == fold(v)
}

/// Relies on String::push: the character is added at the end.
#[verifier::external_body]
fn push_char(s: &mut String, c: char)
    ensures
        final(s)@ == old(s)@.push(c),
{
    s.push(c)
}

/// A trie node: one optional child per letter slot and an end-of-word flag.
pub struct Node {
    children: Vec<Option<Box<Node>>>,
    eow: bool,
}

impl Node {
    /// The child in slot `k`, if any.
    pub closed spec fn child(&self, k: int) -> Option<Node> {
        match self.children@[k] {
            Some(b) => Some(*b),
            None => None,
        }
    }

    /// A word ends at this node.
    pub closed spec fn is_end(&self) -> bool {
        self.eow
    }

    /// Every node of the subtree has its 26 slots.
    pub closed spec fn wf(&self) -> bool
        decreases self,
    {
        &&& self.children@.len() == 26
        &&& forall|k: int|
            0 <= k < 26 ==> (#[trigger] self.children@[k] is Some ==> self.children@[k]->0.wf())
    }

    /// The word `w` (a path from this node) was stored below this node.
    pub open spec fn has(&self, w: Seq<char>) -> bool
        decreases w.len(),
    {
        if w.len() == 0 {
            self.is_end()
        } else if !is_letter(w[0]) {
            false
        } else {
            match self.child(slot_of(w[0])) {
                Some(c) => c.has(w.drop_first()),
                None => false,
            }
        }
    }

    /// The path of `w` (a word of letters, case aside) exists below this node.
    pub open spec fn has_path(&self, w: Seq<char>) -> bool
        decreases w.len(),
    {
        if w.len() == 0 {
            true
        } else if !is_letter(w[0]) {
            false
        } else {
            match self.child(slot_of(w[0])) {
                Some(c) => c.has_path(w.drop_first()),
                None => false,
            }
        }
    }

    /// How many of the first `k` non-empty prefixes of `w` have no path below
    /// this node yet.
    pub open spec fn new_prefixes(&self, w: Seq<char>, k: int) -> nat
        decreases k,
    {
        if k <= 0 {
            0
        } else {
            self.new_prefixes(w, k - 1) + if self.has_path(w.take(k)) {
                0nat
            } else {
                1nat
            }
        }
    }

    /// Nodes in the subtree of slot `k`, none when it is empty.
    pub open spec fn slot_size(&self, k: int) -> nat {
        match self.child(k) {
            Some(c) => c.size(),
            None => 0,
        }
    }

    /// What a lookup of `w` below this node gives: it stops with `false` at
    /// the first missing child and fails at the first character that is not a
    /// letter that it reaches.
    pub open spec fn lookup(&self, w: Seq<char>) -> Result<bool, TrieError>
        decreases w.len(),
    {
        if w.len() == 0 {
            Ok(self.is_end())
        } else if !is_letter(w[0]) {
            Err(TrieError::NonAlphabeticIndexError)
        } else {
            match self.child(slot_of(w[0])) {
                Some(c) => c.lookup(w.drop_first()),
                None => Ok(false),
            }
        }
    }

    /// Number of nodes in this subtree.
    pub closed spec fn size(&self) -> nat
        decreases self, 27int,
    {
        1 + self.size_upto(26)
    }

    /// Number of nodes in the subtrees of the first `k` slots.
    pub closed spec fn size_upto(&self, k: int) -> nat
        decreases self, k,
    {
        if k <= 0 || k > self.children.len() {
            0
        } else {
            self.size_upto(k - 1) + match self.children[k - 1] {
                Some(c) => c.size(),
                None => 0,
            }
        }
    }

    pub fn new() -> (r: Node)
        ensures
            r.wf(),
            !r.is_end(),
            forall|k: int| 0 <= k < 26 ==> #[trigger] r.child(k) is None,
    {
        let mut children: Vec<Option<Box<Node>>> = Vec::new();
        let mut i: usize = 0;
        while i < ALPHABET
            invariant
                i <= 26,
                children@.len() == i,
                forall|k: int| 0 <= k < i ==> #[trigger] children@[k] is None,
            decreases 26 - i,
        {
            children.push(None);
            i = i + 1;
        }
        Node { children, eow: false }
    }

    /// The words found below this node from the letters `b`, each written
    /// after `prefix`, in search order: the word ending here first, then the
    /// results of each offered slot in alphabetical order.
    pub closed spec fn search(&self, b: LetterBag, prefix: Seq<char>) -> Seq<Seq<char>>
        decreases self, 27int,
    {
        (if self.eow {
            seq![prefix]
        } else {
            Seq::empty()
        }) + self.search_upto(b, prefix, 26)
    }

    /// The results of the first `k` slots.
    pub closed spec fn search_upto(&self, b: LetterBag, prefix: Seq<char>, k: int) -> Seq<Seq<char>>
        decreases self, k,
    {
        if k <= 0 || k > self.children.len() {
            Seq::empty()
        } else {
            self.search_upto(b, prefix, k - 1) + match self.children[k - 1] {
                Some(c) => if available(b, k - 1) {
                    c.search(residual(b, k - 1), prefix.push(letter_at(k - 1)))
                } else {
                    Seq::empty()
                },
                None => Seq::empty(),
            }
        }
    }

    /// The search results of slot `k` alone.
    pub closed spec fn search_slot(&self, b: LetterBag, prefix: Seq<char>, k: int) -> Seq<Seq<char>> {
        match self.child(k) {
            Some(c) => if available(b, k) {
                c.search(residual(b, k), prefix.push(letter_at(k)))
            } else {
                Seq::empty()
            },
            None => Seq::empty(),
        }
    }

    proof fn lemma_search_upto_step(&self, b: LetterBag, prefix: Seq<char>, k: int)
        requires
            self.wf(),
            0 <= k < 26,
        ensures
            self.search_upto(b, prefix, k + 1) == self.search_upto(b, prefix, k) + self.search_slot(b, prefix, k),
    {
    }

    /// Slots that cannot be offered add nothing.
    proof fn lemma_search_skip(&self, b: LetterBag, prefix: Seq<char>, k: int, j: int)
        requires
            self.wf(),
            0 <= k <= j <= 26,
            next_available(b, k) >= j,
        ensures
            self.search_upto(b, prefix, j) == self.search_upto(b, prefix, k),
        decreases j - k,
    {
        if k < j {
            assert(!available(b, k));
            self.lemma_search_skip(b, prefix, k + 1, j);
            self.lemma_search_upto_step(b, prefix, k);
            assert(self.search_upto(b, prefix, k + 1) =~= self.search_upto(b, prefix, k));
        }
    }

    /// A lookup of a word of letters tells whether it is stored.
    pub proof fn lemma_lookup_has(&self, w: Seq<char>)
        requires
            all_letters(w),
        ensures
            self.lookup(w) == Ok::<bool, TrieError>(self.has(w)),
        decreases w.len(),
    {
        if w.len() > 0 {
            assert(is_letter(w[0]));
            match self.child(slot_of(w[0])) {
                Some(c) => {
                    assert(all_letters(w.drop_first())) by {
                        assert forall|i: int| 0 <= i < w.drop_first().len() implies is_letter(
                            #[trigger] w.drop_first()[i],
                        ) by {
                            assert(w.drop_first()[i] == w[i + 1]);
                        }
                    }
                    c.lemma_lookup_has(w.drop_first());
                },
                None => {},
            }
        }
    }

    /// A search below this node from `b` after `prefix` finds `x` exactly when
    /// `x` continues `prefix` with a word stored here that `b` can spell, and
    /// it finds no string twice.
    pub proof fn lemma_search_exact(&self, b: LetterBag, prefix: Seq<char>)
        requires
            self.wf(),
        ensures
            forall|x: Seq<char>| #[trigger] self.search(b, prefix).contains(x) <==> found(*self, b, prefix, x),
            self.search(b, prefix).no_duplicates(),
        decreases self, 27int,
    {
        self.lemma_search_upto_exact(b, prefix, 26);
        let own = if self.eow {
            seq![prefix]
        } else {
            Seq::<Seq<char>>::empty()
        };
        let rest = self.search_upto(b, prefix, 26);
        assert forall|x: Seq<char>| #[trigger] self.search(b, prefix).contains(x) <==> found(*self, b, prefix, x) by {
            lemma_concat_contains(own, rest, x);
            if own.contains(x) {
                assert(x == prefix);
                assert(x.skip(prefix.len() as int) =~= Seq::<char>::empty());
                assert(x.take(prefix.len() as int) =~= prefix);
            }
            if found(*self, b, prefix, x) && x.len() == prefix.len() {
                assert(x =~= prefix);
                assert(x.skip(prefix.len() as int) =~= Seq::<char>::empty());
                assert(own[0] == x);
            }
            if found(*self, b, prefix, x) && x.len() > prefix.len() {
                lemma_spellable_head(x.skip(prefix.len() as int), b);
            }
        }
        assert forall|x: Seq<char>| own.contains(x) implies !rest.contains(x) by {
            assert(x == prefix);
        }
        lemma_concat_no_duplicates(own, rest);
    }

    proof fn lemma_search_upto_exact(&self, b: LetterBag, prefix: Seq<char>, k: int)
        requires
            self.wf(),
            0 <= k <= 26,
        ensures
            forall|x: Seq<char>| #[trigger] self.search_upto(b, prefix, k).contains(x) <==> (found(*self, b, prefix, x)
                && x.len() > prefix.len() && slot_of(x[prefix.len() as int]) < k),
            self.search_upto(b, prefix, k).no_duplicates(),
        decreases self, k,
    {
        if k > 0 {
            self.lemma_search_upto_exact(b, prefix, k - 1);
            let before = self.search_upto(b, prefix, k - 1);
            let l = letter_at(k - 1);
            let np = prefix.push(l);
            lemma_letter_slot(k - 1);
            let slot = match self.children[k - 1] {
                Some(c) => if available(b, k - 1) {
                    c.lemma_search_exact(residual(b, k - 1), np);
                    c.search(residual(b, k - 1), np)
                } else {
                    Seq::empty()
                },
                None => Seq::empty(),
            };
            assert(self.search_upto(b, prefix, k) == before + slot);
            let n = prefix.len() as int;
            assert forall|x: Seq<char>| #[trigger] slot.contains(x) <==> (found(*self, b, prefix, x)
                && x.len() > n && slot_of(x[n]) == k - 1) by {
                let r = x.skip(n);
                if x.len() > n {
                    assert(r.drop_first() =~= x.skip(n + 1));
                    assert(r[0] == x[n]);
                    if found(*self, b, prefix, x) && slot_of(x[n]) == k - 1 {
                        lemma_spellable_head(r, b);
                        lemma_slot_letter(x[n]);
                    }
                    if x.take(n + 1) == np {
                        assert(x.take(n) =~= x.take(n + 1).drop_last());
                        assert(np.drop_last() =~= prefix);
                        assert(x[n] == x.take(n + 1)[n]);
                    }
                    if x.take(n) == prefix && x[n] == l {
                        assert(x.take(n + 1) =~= np);
                    }
                    if slot_of(x[n]) == k - 1 && is_letter(x[n]) {
                        assert(self.has(r) == match self.child(k - 1) {
                            Some(c) => c.has(r.drop_first()),
                            None => false,
                        });
                    }
                    match self.children[k - 1] {
                        Some(c) => {
                            assert(self.child(k - 1) == Some(*c));
                            if available(b, k - 1) {
                                assert(slot == c.search(residual(b, k - 1), np));
                                if slot.contains(x) {
                                    assert(found(*c, residual(b, k - 1), np, x));
                                    assert(x[n] == l);
                                    assert(spellable(r, b));
                                    assert(self.has(r));
                                }
                                if found(*self, b, prefix, x) && slot_of(x[n]) == k - 1 {
                                    assert(x.skip(n + 1) == r.drop_first());
                                    assert(c.has(x.skip(n + 1)));
                                    assert(spellable(x.skip(n + 1), residual(b, k - 1)));
                                    assert(found(*c, residual(b, k - 1), np, x));
                                }
                            } else {
                                assert(slot =~= Seq::<Seq<char>>::empty());
                            }
                        },
                        None => {
                            assert(self.child(k - 1) is None);
                            assert(slot =~= Seq::<Seq<char>>::empty());
                        },
                    }
                } else {
                    match self.children[k - 1] {
                        Some(c) => {
                            if available(b, k - 1) {
                                assert(slot == c.search(residual(b, k - 1), np));
                                if slot.contains(x) {
                                    assert(found(*c, residual(b, k - 1), np, x));
                                }
                            } else {
                                assert(slot =~= Seq::<Seq<char>>::empty());
                            }
                        },
                        None => {
                            assert(slot =~= Seq::<Seq<char>>::empty());
                        },
                    }
                }
            }
            assert forall|x: Seq<char>| #[trigger] self.search_upto(b, prefix, k).contains(x) <==> (found(*self, b, prefix, x)
                && x.len() > n && slot_of(x[n]) < k) by {
                lemma_concat_contains(before, slot, x);
            }
            assert forall|x: Seq<char>| before.contains(x) implies !slot.contains(x) by {}
            lemma_concat_no_duplicates(before, slot);
        }
    }

    /// The child in the slot of letter `c`, if there is one.
    pub fn get(&self, c: char) -> (r: Result<Option<&Node>, TrieError>)
        requires
            self.wf(),
        ensures
            !is_letter(c) ==> r == Err::<Option<&Node>, TrieError>(TrieError::NonAlphabeticIndexError),
            is_letter(c) ==> r is Ok && (r->Ok_0 is Some <==> self.child(slot_of(c)) is Some),
            is_letter(c) && r->Ok_0 is Some ==> *r->Ok_0->Some_0 == self.child(slot_of(c))->Some_0,
    {
        match char_to_index(c) {
            Ok(index) => {
                match &self.children[index] {
                    Some(child) => Ok(Some(&**child)),
                    None => Ok(None),
                }
            },
            Err(e) => Err(e),
        }
    }

    /// Makes sure that the slot of letter `c` holds a child, adding an empty
    /// one if needed, and returns the slot.
    pub fn get_or_create(&mut self, c: char) -> (r: Result<usize, TrieError>)
        requires
            old(self).wf(),
        ensures
            final(self).wf(),
            !is_letter(c) ==> r == Err::<usize, TrieError>(TrieError::NonAlphabeticIndexError) && *final(self) == *old(self),
            is_letter(c) ==> r == Ok::<usize, TrieError>(slot_of(c) as usize),
            is_letter(c) ==> final(self).is_end() == old(self).is_end(),
            is_letter(c) ==> forall|k: int| 0 <= k < 26 && k != slot_of(c) ==> #[trigger] final(self).child(k) == old(self).child(k),
            is_letter(c) && old(self).child(slot_of(c)) is Some ==> final(self).child(slot_of(c)) == old(self).child(slot_of(c)),
            is_letter(c) && old(self).child(slot_of(c)) is None ==> ({
                let n = final(self).child(slot_of(c));
                &&& n is Some
                &&& !n->Some_0.is_end()
                &&& forall|k: int| 0 <= k < 26 ==> #[trigger] n->Some_0.child(k) is None
            }),
    {
        match char_to_index(c) {
            Ok(index) => {
                if self.children[index].is_none() {
                    let fresh = Node::new();
                    self.children[index] = Some(Box::new(fresh));
                    proof {
                        assert forall|k: int| 0 <= k < 26 && #[trigger] self.children@[k] is Some implies self.children@[k]->0.wf() by {
                            if k != index {
                                assert(self.children@[k] == old(self).children@[k]);
                            }
                        }
                    }
                }
                Ok(index)
            },
            Err(e) => Err(e),
        }
    }

    /// Stores `word` below this node, one letter per level, and marks where
    /// it ends. Fails at the first character that is not a letter; what was
    /// stored before stays as it was.
    pub fn insert(&mut self, word: &str) -> (r: Result<(), TrieError>)
        requires
            old(self).wf(),
        ensures
            final(self).wf(),
            all_letters(word@) ==> r is Ok,
            !all_letters(word@) ==> r == Err::<(), TrieError>(TrieError::NonAlphabeticIndexError),
            forall|w: Seq<char>| #[trigger] final(self).has(w) == (old(self).has(w) || (r is Ok && same_word(w, word@))),
            all_letters(word@) ==> final(self).size() == old(self).size() + old(self).new_prefixes(word@, word@.len() as int),
            all_letters(word@) ==> forall|w: Seq<char>| #[trigger] final(self).has_path(w) == (old(self).has_path(w) || prefix_of(w, word@)),
        decreases word@.len(),
    {
        let n = word.unicode_len();
        if n == 0 {
            self.eow = true;
            proof {
                assert forall|w: Seq<char>| #[trigger] self.has(w) == (old(self).has(w) || same_word(w, word@)) by {
                    if w.len() == 0 {
                        assert(fold(w) =~= fold(word@));
                    } else {
                        assert(fold(w).len() != fold(word@).len());
                    }
                }
                assert forall|w: Seq<char>| #[trigger] self.has_path(w) == (old(self).has_path(w) || prefix_of(w, word@)) by {
                    if w.len() == 0 {
                        lemma_prefix_empty(word@);
                    }
                }
                lemma_size_upto_shift(*self, *old(self), 0, 0, 26);
                self.lemma_size_unfold();
                old(self).lemma_size_unfold();
            }
            return Ok(());
        }
        let c = word.get_char(0);
        let rest = word.substring_char(1, n);
        let index = match self.get_or_create(c) {
            Ok(index) => index,
            Err(e) => {
                proof {
                    assert(!is_letter(word@[0]));
                }
                return Err(e);
            },
        };
        let ghost mid = *self;
        let mut taken: Option<Box<Node>> = None;
        std::mem::swap(&mut self.children[index], &mut taken);
        let mut child = match taken {
            Some(child) => child,
            None => {
                // not reached: get_or_create has filled this slot
                return Err(TrieError::NonAlphabeticIndexError);
            },
        };
        let ghost child_old = *child;
        let res = child.insert(rest);
        self.children[index] = Some(child);
        proof {
            assert(rest@ =~= word@.drop_first());
            assert forall|k: int| 0 <= k < 26 && #[trigger] self.children@[k] is Some implies self.children@[k]->0.wf() by {
                if k != index {
                    assert(self.children@[k] == mid.children@[k]);
                }
            }
            lemma_letter_slot(slot_of(c));
            assert(all_letters(word@) == all_letters(rest@)) by {
                if all_letters(rest@) {
                    assert forall|i: int| 0 <= i < word@.len() implies is_letter(#[trigger] word@[i]) by {
                        if i > 0 {
                            assert(word@[i] == rest@[i - 1]);
                        }
                    }
                }
                if all_letters(word@) {
                    assert forall|i: int| 0 <= i < rest@.len() implies is_letter(#[trigger] rest@[i]) by {
                        assert(word@[i + 1] == rest@[i]);
                    }
                }
            }
            assert(is_letter(c) && c == word@[0]);
            assert(self.is_end() == old(self).is_end());
            assert forall|w: Seq<char>| #[trigger] self.has(w) == (old(self).has(w) || (res is Ok && same_word(w, word@))) by {
                if w.len() == 0 {
                    assert(fold(w).len() != fold(word@).len());
                } else if !is_letter(w[0]) {
                    assert(!all_letters(w));
                } else {
                    let wr = w.drop_first();
                    if slot_of(w[0]) == index {
                        assert(self.child(index as int) == Some(*child));
                        assert(self.has(w) == child.has(wr));
                        lemma_same_word_step(w, word@);
                        if old(self).child(index as int) is None {
                            let f = mid.child(index as int)->Some_0;
                            if wr.len() > 0 && is_letter(wr[0]) {
                                assert(f.child(slot_of(wr[0])) is None);
                            }
                            assert(!f.has(wr));
                            assert(!old(self).has(w));
                        } else {
                            assert(old(self).has(w) == mid.child(index as int)->Some_0.has(wr));
                        }
                    } else {
                        assert(self.child(slot_of(w[0])) == mid.child(slot_of(w[0])));
                        assert(self.has(w) == old(self).has(w));
                        lemma_same_word_first(w, word@);
                    }
                }
            }
        }
        proof {
            if all_letters(word@) {
                assert(child_old == mid.child(index as int)->Some_0);
                assert(self.child(index as int) == Some(*child));
                assert forall|w: Seq<char>| #[trigger] self.has_path(w) == (old(self).has_path(w) || prefix_of(w, word@)) by {
                    if w.len() == 0 {
                        lemma_prefix_empty(word@);
                    } else if !is_letter(w[0]) {
                        assert(!all_letters(w));
                    } else if slot_of(w[0]) == index {
                        let wr = w.drop_first();
                        assert(self.has_path(w) == child.has_path(wr));
                        lemma_prefix_step(w, word@);
                        assert(word@.drop_first() == rest@);
                        assert(prefix_of(w, word@) == prefix_of(wr, rest@));
                        if old(self).child(index as int) is None {
                            if wr.len() > 0 && is_letter(wr[0]) {
                                assert(child_old.child(slot_of(wr[0])) is None);
                            }
                            if wr.len() == 0 {
                                lemma_prefix_empty(rest@);
                                assert(wr =~= Seq::<char>::empty());
                            }
                            assert(!old(self).has_path(w));
                            assert(child_old.has_path(wr) == (wr.len() == 0));
                            assert(child.has_path(wr) == (child_old.has_path(wr) || prefix_of(wr, rest@)));
                            assert(self.has_path(w) == (old(self).has_path(w) || prefix_of(w, word@)));
                        } else {
                            assert(old(self).has_path(w) == child_old.has_path(wr));
                            assert(self.has_path(w) == (old(self).has_path(w) || prefix_of(w, word@)));
                        }
                    } else {
                        assert(self.child(slot_of(w[0])) == mid.child(slot_of(w[0])));
                        if w.len() <= word@.len() {
                            let v = word@.take(w.len() as int);
                            assert(v[0] == word@[0]);
                            lemma_same_word_first(w, v);
                        }
                        assert(self.has_path(w) == (old(self).has_path(w) || prefix_of(w, word@)));
                    }
                }
                old(self).lemma_new_prefixes_step(word@);
                let d = old(self).new_prefixes(word@, word@.len() as int);
                if old(self).child(index as int) is None {
                    child_old.lemma_size_empty();
                    if rest@.len() > 0 {
                        child_old.lemma_new_prefixes_step(rest@);
                    }
                    assert(self.slot_size(index as int) == old(self).slot_size(index as int) + d);
                } else {
                    assert(self.slot_size(index as int) == old(self).slot_size(index as int) + d);
                }
                assert forall|j: int| 0 <= j < 26 && j != index implies #[trigger] self.child(j) == old(self).child(j) by {
                    assert(self.child(j) == mid.child(j));
                }
                lemma_size_upto_shift(*self, *old(self), index as int, d, 26);
            }
        }
        match res {
            Ok(()) => Ok(()),
            Err(e) => Err(e),
        }
    }

    /// Counting the missing prefixes of `w` goes one level down: through the
    /// child of its first letter, or all of them when that child is missing.
    pub proof fn lemma_new_prefixes_step(&self, w: Seq<char>)
        requires
            w.len() > 0,
            is_letter(w[0]),
        ensures
            self.child(slot_of(w[0])) is Some ==> self.new_prefixes(w, w.len() as int)
                == self.child(slot_of(w[0]))->Some_0.new_prefixes(w.drop_first(), w.len() - 1),
            self.child(slot_of(w[0])) is None ==> self.new_prefixes(w, w.len() as int) == w.len(),
    {
        self.lemma_new_prefixes_upto(w, w.len() as int);
    }

    proof fn lemma_new_prefixes_upto(&self, w: Seq<char>, k: int)
        requires
            w.len() > 0,
            is_letter(w[0]),
            1 <= k <= w.len(),
        ensures
            self.child(slot_of(w[0])) is Some ==> self.new_prefixes(w, k)
                == self.child(slot_of(w[0]))->Some_0.new_prefixes(w.drop_first(), k - 1),
            self.child(slot_of(w[0])) is None ==> self.new_prefixes(w, k) == k,
        decreases k,
    {
        if k > 1 {
            self.lemma_new_prefixes_upto(w, k - 1);
        }
        let t = w.take(k);
        let v = w.drop_first();
        assert(t.drop_first() =~= v.take(k - 1));
        assert(t[0] == w[0]);
        assert(self.new_prefixes(w, k) == self.new_prefixes(w, k - 1) + if self.has_path(t) {
            0nat
        } else {
            1nat
        });
        match self.child(slot_of(w[0])) {
            Some(c) => {
                assert(self.has_path(t) == c.has_path(t.drop_first()));
                assert(c.new_prefixes(v, k - 1) == c.new_prefixes(v, k - 2) + if c.has_path(v.take(k - 1)) {
                    0nat
                } else {
                    1nat
                });
                if k == 1 {
                    assert(c.has_path(v.take(0)));
                }
            },
            None => {
                assert(!self.has_path(t));
            },
        }
    }

    /// A stored word has a path.
    pub proof fn lemma_has_path(&self, w: Seq<char>)
        requires
            self.has(w),
        ensures
            self.has_path(w),
        decreases w.len(),
    {
        if w.len() > 0 {
            self.child(slot_of(w[0]))->Some_0.lemma_has_path(w.drop_first());
        }
    }

    /// Every prefix of a path is a path.
    pub proof fn lemma_path_prefix(&self, w: Seq<char>, j: int)
        requires
            self.has_path(w),
            0 <= j <= w.len(),
        ensures
            self.has_path(w.take(j)),
        decreases w.len(),
    {
        if j > 0 {
            let t = w.take(j);
            assert(t[0] == w[0]);
            assert(t.drop_first() =~= w.drop_first().take(j - 1));
            self.child(slot_of(w[0]))->Some_0.lemma_path_prefix(w.drop_first(), j - 1);
        } else {
            assert(w.take(0) =~= Seq::<char>::empty());
        }
    }

    /// Words that differ only in case have the same path and are stored alike.
    pub proof fn lemma_case_aside(&self, v: Seq<char>, w: Seq<char>)
        requires
            same_word(v, w),
        ensures
            self.has(v) == self.has(w),
            self.has_path(v) == self.has_path(w),
        decreases w.len(),
    {
        assert(fold(v).len() == fold(w).len());
        if w.len() > 0 {
            assert(is_letter(v[0]) && is_letter(w[0]));
            assert(fold(v)[0] == fold(w)[0]);
            lemma_letter_slot(slot_of(v[0]));
            lemma_letter_slot(slot_of(w[0]));
            lemma_same_word_step(v, w);
            match self.child(slot_of(w[0])) {
                Some(c) => {
                    c.lemma_case_aside(v.drop_first(), w.drop_first());
                },
                None => {},
            }
        }
    }

    proof fn lemma_no_new_prefixes(&self, w: Seq<char>, k: int)
        requires
            self.has_path(w),
            0 <= k <= w.len(),
        ensures
            self.new_prefixes(w, k) == 0,
        decreases k,
    {
        if k > 0 {
            self.lemma_no_new_prefixes(w, k - 1);
            self.lemma_path_prefix(w, k);
        }
    }

    /// Storing a word that is already stored adds no node, no path and no word.
    pub proof fn lemma_stored_word(&self, w: Seq<char>)
        requires
            all_letters(w),
            self.has(w),
        ensures
            self.new_prefixes(w, w.len() as int) == 0,
            forall|v: Seq<char>| prefix_of(v, w) ==> #[trigger] self.has_path(v),
            forall|v: Seq<char>| same_word(v, w) ==> #[trigger] self.has(v),
    {
        self.lemma_has_path(w);
        self.lemma_no_new_prefixes(w, w.len() as int);
        assert forall|v: Seq<char>| prefix_of(v, w) implies #[trigger] self.has_path(v) by {
            self.lemma_path_prefix(w, v.len() as int);
            self.lemma_case_aside(v, w.take(v.len() as int));
        }
        assert forall|v: Seq<char>| same_word(v, w) implies #[trigger] self.has(v) by {
            self.lemma_case_aside(v, w);
        }
    }

    proof fn lemma_children_alike(a: Node, b: Node, k: int)
        requires
            alike(a, b),
            0 <= k < 26,
        ensures
            (a.child(k) is Some) == (b.child(k) is Some),
            a.child(k) is Some ==> alike(a.child(k)->Some_0, b.child(k)->Some_0),
    {
        let l = letter_at(k);
        lemma_letter_slot(k);
        let one = seq![l];
        assert(one.drop_first() =~= Seq::<char>::empty());
        assert(one[0] == l);
        assert(a.has_path(one) == b.has_path(one));
        if a.child(k) is Some {
            assert(a.child(k)->Some_0.has_path(one.drop_first()));
        }
        if b.child(k) is Some {
            assert(b.child(k)->Some_0.has_path(one.drop_first()));
        }
        assert(a.has_path(one) == (a.child(k) is Some));
        assert(b.has_path(one) == (b.child(k) is Some));
        if a.child(k) is Some {
            let (ca, cb) = (a.child(k)->Some_0, b.child(k)->Some_0);
            assert forall|v: Seq<char>| #[trigger] ca.has(v) == cb.has(v) by {
                let w = one + v;
                assert(w.drop_first() =~= v);
                assert(w[0] == l);
                assert(a.has(w) == ca.has(v));
                assert(b.has(w) == cb.has(v));
            }
            assert forall|v: Seq<char>| #[trigger] ca.has_path(v) == cb.has_path(v) by {
                let w = one + v;
                assert(w.drop_first() =~= v);
                assert(w[0] == l);
                assert(a.has_path(w) == ca.has_path(v));
                assert(b.has_path(w) == cb.has_path(v));
            }
        }
    }

    /// Two nodes that store the same words and have the same paths answer
    /// every lookup alike.
    pub proof fn lemma_alike_lookup(a: Node, b: Node, w: Seq<char>)
        requires
            alike(a, b),
        ensures
            a.lookup(w) == b.lookup(w),
        decreases w.len(),
    {
        assert(a.has(Seq::empty()) == b.has(Seq::empty()));
        if w.len() > 0 && is_letter(w[0]) {
            Node::lemma_children_alike(a, b, slot_of(w[0]));
            if a.child(slot_of(w[0])) is Some {
                Node::lemma_alike_lookup(a.child(slot_of(w[0]))->Some_0, b.child(slot_of(w[0]))->Some_0, w.drop_first());
            }
        }
    }

    /// Two well-formed nodes that store the same words and have the same
    /// paths have the same size and the same search results, in order.
    pub proof fn lemma_alike_search(a: Node, b: Node, bag: LetterBag, prefix: Seq<char>)
        requires
            a.wf(),
            b.wf(),
            alike(a, b),
        ensures
            a.search(bag, prefix) == b.search(bag, prefix),
            a.size() == b.size(),
        decreases a, 27int,
    {
        assert(a.has(Seq::empty()) == b.has(Seq::empty()));
        Node::lemma_alike_search_upto(a, b, bag, prefix, 26);
    }

    proof fn lemma_alike_search_upto(a: Node, b: Node, bag: LetterBag, prefix: Seq<char>, k: int)
        requires
            a.wf(),
            b.wf(),
            alike(a, b),
            0 <= k <= 26,
        ensures
            a.search_upto(bag, prefix, k) == b.search_upto(bag, prefix, k),
            a.size_upto(k) == b.size_upto(k),
        decreases a, k,
    {
        if k > 0 {
            Node::lemma_alike_search_upto(a, b, bag, prefix, k - 1);
            Node::lemma_children_alike(a, b, k - 1);
            match a.children[k - 1] {
                Some(ca) => {
                    let cb = b.child(k - 1)->Some_0;
                    Node::lemma_alike_search(*ca, cb, residual(bag, k - 1), prefix.push(letter_at(k - 1)));
                },
                None => {},
            }
        }
    }

    /// The size of a node unfolds into the sizes of its slots, in order.
    pub proof fn lemma_size_unfold(&self)
        requires
            self.wf(),
        ensures
            self.size() == 1 + self.size_upto(26),
            self.size_upto(0) == 0,
            forall|k: int| 0 <= k < 26 ==> #[trigger] self.size_upto(k + 1) == self.size_upto(k) + self.slot_size(k),
    {
    }

    /// A search unfolds into the word ending here, then the results of each
    /// slot in alphabetical order.
    pub proof fn lemma_search_unfold(&self, b: LetterBag, prefix: Seq<char>)
        requires
            self.wf(),
        ensures
            self.search(b, prefix) == (if self.is_end() {
                seq![prefix]
            } else {
                Seq::<Seq<char>>::empty()
            }) + self.search_upto(b, prefix, 26),
            self.search_upto(b, prefix, 0) == Seq::<Seq<char>>::empty(),
            forall|k: int| 0 <= k < 26 ==> #[trigger] self.search_upto(b, prefix, k + 1)
                == self.search_upto(b, prefix, k) + self.search_slot(b, prefix, k),
            forall|k: int| 0 <= k < 26 ==> #[trigger] self.search_slot(b, prefix, k) == match self.child(k) {
                Some(c) => if available(b, k) {
                    c.search(residual(b, k), prefix.push(letter_at(k)))
                } else {
                    Seq::empty()
                },
                None => Seq::empty(),
            },
    {
    }

    /// Looks up `word` below this node.
    pub fn find(&self, word: &str) -> (r: Result<bool, TrieError>)
        requires
            self.wf(),
        ensures
            r == self.lookup(word@),
            all_letters(word@) ==> r == Ok::<bool, TrieError>(self.has(word@)),
        decreases word@.len(),
    {
        proof {
            if all_letters(word@) {
                self.lemma_lookup_has(word@);
            }
        }
        let n = word.unicode_len();
        if n == 0 {
            return Ok(self.eow);
        }
        let c = word.get_char(0);
        let rest = word.substring_char(1, n);
        proof {
            assert(rest@ =~= word@.drop_first());
        }
        match self.get(c) {
            Ok(Some(child)) => child.find(rest),
            Ok(None) => Ok(false),
            Err(e) => Err(e),
        }
    }

    /// Counts the nodes of this subtree, this one included.
    pub fn node_count(&self) -> (r: usize)
        requires
            self.wf(),
            self.size() <= usize::MAX,
        ensures
            r == self.size(),
        decreases self,
    {
        let mut nodes: usize = 1;
        let mut i: usize = 0;
        while i < ALPHABET
            invariant
                self.wf(),
                self.size() <= usize::MAX,
                i <= 26,
                nodes == 1 + self.size_upto(i as int),
            decreases 26 - i,
        {
            match &self.children[i] {
                Some(child) => {
                    proof {
                        assert(self.size_upto(i + 1) == self.size_upto(i as int) + child.size());
                        self.lemma_size_upto_le(i + 1);
                    }
                    nodes = nodes + child.node_count();
                },
                None => {},
            }
            i = i + 1;
        }
        nodes
    }

    /// A node with no children is one node.
    pub proof fn lemma_size_empty(&self)
        requires
            forall|k: int| 0 <= k < 26 ==> #[trigger] self.child(k) is None,
            self.wf(),
        ensures
            self.size() == 1,
    {
        self.lemma_size_upto_zero(26);
        assert(self.size() == 1 + self.size_upto(26));
    }

    proof fn lemma_size_upto_zero(&self, k: int)
        requires
            forall|j: int| 0 <= j < 26 ==> #[trigger] self.child(j) is None,
            self.wf(),
            0 <= k <= 26,
        ensures
            self.size_upto(k) == 0,
        decreases k,
    {
        if k > 0 {
            self.lemma_size_upto_zero(k - 1);
            assert(self.child(k - 1) is None);
        }
    }

    proof fn lemma_size_upto_le(&self, k: int)
        requires
            self.wf(),
            0 <= k <= 26,
        ensures
            self.size_upto(k) <= self.size_upto(26),
        decreases 26 - k,
    {
        if k < 26 {
            self.lemma_size_upto_le(k + 1);
        }
    }

    /// Every word below this node that the letters can spell, each after
    /// `prefix`, in search order. A slot is tried at most once per node, so a
    /// word is never reached twice through different uses of the wildcards.
    pub fn anagrams(&self, letters: Letters, prefix: String) -> (r: Vec<String>)
        requires
            self.wf(),
        ensures
            words_of(r@) == self.search(letters@, prefix@),
        decreases self,
    {
        let mut words: Vec<String> = Vec::new();
        if self.eow {
            words.push(prefix.clone());
        }
        let ghost own = words_of(words@);
        proof {
            assert(own =~= (if self.eow { seq![prefix@] } else { Seq::<Seq<char>>::empty() }));
            assert(self.search_upto(letters@, prefix@, 0) =~= Seq::<Seq<char>>::empty());
        }
        let mut iter = letters.into_iter();
        loop
            invariant
                self.wf(),
                iter.rest() == letters@,
                iter.position() <= 26,
                own == (if self.eow { seq![prefix@] } else { Seq::<Seq<char>>::empty() }),
                words_of(words@) == own + self.search_upto(letters@, prefix@, iter.position()),
            decreases 26 - iter.position(),
        {
            let ghost pos = iter.position();
            proof {
                iter.lemma_position_nonneg();
                lemma_next_available_is(letters@, pos);
            }
            match iter.next() {
                None => {
                    proof {
                        self.lemma_search_skip(letters@, prefix@, pos, 26);
                        assert(words_of(words@) =~= self.search(letters@, prefix@));
                    }
                    return words;
                },
                Some(Letter(letter, remaining)) => {
                    let ghost j = next_available(letters@, pos);
                    proof {
                        self.lemma_search_skip(letters@, prefix@, pos, j);
                        self.lemma_search_upto_step(letters@, prefix@, j);
                        lemma_letter_slot(j);
                        lemma_next_available_is(letters@, pos);
                    }
                    match self.get(letter) {
                        Ok(Some(child)) => {
                            let mut next_prefix = prefix.clone();
                            push_char(&mut next_prefix, letter);
                            let mut found = child.anagrams(remaining, next_prefix);
                            let ghost before = words@;
                            let ghost found_v = found@;
                            words.append(&mut found);
                            proof {
                                assert(words_of(words@) =~= words_of(before) + words_of(found_v));
                            }
                        },
                        _ => {
                            proof {
                                assert(self.search_slot(letters@, prefix@, j) =~= Seq::<Seq<char>>::empty());
                            }
                        },
                    }
                },
            }
        }
    }
}

/// `w` is a word of lower-case letters that the letters of `b` spell, each
/// letter taken from its real copies while there are any, else from a wildcard.
pub open spec fn spellable(w: Seq<char>, b: LetterBag) -> bool
    decreases w.len(),
{
    w.len() == 0 || ('a' <= w[0] && w[0] <= 'z' && available(b, slot_of(w[0])) && spellable(
        w.drop_first(),
        residual(b, slot_of(w[0])),
    ))
}

/// `x` is `prefix` followed by a word stored below `n` that `b` spells.
pub open spec fn found(n: Node, b: LetterBag, prefix: Seq<char>, x: Seq<char>) -> bool {
    &&& prefix.len() <= x.len()
    &&& x.take(prefix.len() as int) == prefix
    &&& n.has(x.skip(prefix.len() as int))
    &&& spellable(x.skip(prefix.len() as int), b)
}

/// Number of times `c` occurs in `w`.
pub open spec fn occurrences(w: Seq<char>, c: char) -> nat
    decreases w.len(),
{
    if w.len() == 0 {
        0
    } else {
        occurrences(w.drop_first(), c) + if w[0] == c {
            1nat
        } else {
            0nat
        }
    }
}

/// Copies of the letter of slot `j` that `w` needs beyond those in `b`.
pub open spec fn shortfall_at(w: Seq<char>, b: LetterBag, j: int) -> nat {
    if occurrences(w, letter_at(j)) > b.counts[j] {
        (occurrences(w, letter_at(j)) - b.counts[j]) as nat
    } else {
        0
    }
}

/// Wildcards that `w` needs for the letters of the first `k` slots.
pub open spec fn shortfall(w: Seq<char>, b: LetterBag, k: int) -> nat
    decreases k,
{
    if k <= 0 {
        0
    } else {
        shortfall(w, b, k - 1) + shortfall_at(w, b, k - 1)
    }
}

/// Every character is a lower-case ASCII letter.
pub open spec fn lower_letters(w: Seq<char>) -> bool {
    forall|i: int| 0 <= i < w.len() ==> 'a' <= #[trigger] w[i] <= 'z'
}

proof fn lemma_shortfall_shift(w: Seq<char>, b: LetterBag, v: Seq<char>, c: LetterBag, k: int, d: nat, n: int)
    requires
        0 <= k < 26,
        0 <= n <= 26,
        forall|j: int| 0 <= j < 26 && j != k ==> #[trigger] shortfall_at(w, b, j) == shortfall_at(v, c, j),
        shortfall_at(w, b, k) == shortfall_at(v, c, k) + d,
    ensures
        shortfall(w, b, n) == shortfall(v, c, n) + if n > k {
            d
        } else {
            0
        },
    decreases n,
{
    if n > 0 {
        lemma_shortfall_shift(w, b, v, c, k, d, n - 1);
    }
}

/// The search's rule, a real copy of a letter before a wildcard, spells
/// exactly the words of lower-case letters whose copies of each letter beyond
/// those in `b` add up to at most the wildcards of `b`.
pub proof fn lemma_spellable_counts(w: Seq<char>, b: LetterBag)
    requires
        b.counts.len() == 26,
    ensures
        spellable(w, b) <==> (lower_letters(w) && shortfall(w, b, 26) <= b.wild),
    decreases w.len(),
{
    if w.len() == 0 {
        assert(w =~= Seq::<char>::empty());
        lemma_shortfall_zero(b, 26);
    } else {
        let v = w.drop_first();
        assert(lower_letters(w) <==> ('a' <= w[0] <= 'z' && lower_letters(v))) by {
            if 'a' <= w[0] <= 'z' && lower_letters(v) {
                assert forall|i: int| 0 <= i < w.len() implies 'a' <= #[trigger] w[i] <= 'z' by {
                    if i > 0 {
                        assert(w[i] == v[i - 1]);
                    }
                }
            }
            if lower_letters(w) {
                assert forall|i: int| 0 <= i < v.len() implies 'a' <= #[trigger] v[i] <= 'z' by {
                    assert(w[i + 1] == v[i]);
                }
                assert('a' <= w[0] <= 'z');
            }
        }
        if 'a' <= w[0] <= 'z' {
            let k = slot_of(w[0]);
            lemma_slot_letter(w[0]);
            let c = residual(b, k);
            lemma_spellable_counts(v, c);
            assert forall|j: int| 0 <= j < 26 && j != k implies #[trigger] shortfall_at(w, b, j) == shortfall_at(v, c, j) by {
                lemma_letter_slot(j);
                assert(letter_at(j) != w[0]);
                assert(occurrences(w, letter_at(j)) == occurrences(v, letter_at(j)));
            }
            assert(occurrences(w, letter_at(k)) == occurrences(v, letter_at(k)) + 1);
            if b.counts[k] > 0 {
                lemma_shortfall_shift(w, b, v, c, k, 0, 26);
            } else {
                lemma_shortfall_shift(w, b, v, c, k, 1, 26);
            }
        }
    }
}

proof fn lemma_shortfall_zero(b: LetterBag, n: int)
    requires
        0 <= n <= 26,
    ensures
        shortfall(Seq::empty(), b, n) == 0,
    decreases n,
{
    if n > 0 {
        lemma_shortfall_zero(b, n - 1);
    }
}

/// `w` is a prefix of the word `v`, case aside.
pub open spec fn prefix_of(w: Seq<char>, v: Seq<char>) -> bool {
    w.len() <= v.len() && same_word(w, v.take(w.len() as int))
}

proof fn lemma_prefix_empty(v: Seq<char>)
    ensures
        prefix_of(Seq::empty(), v),
{
    assert(v.take(0) =~= Seq::<char>::empty());
    assert(fold(Seq::<char>::empty()) =~= fold(v.take(0)));
}

proof fn lemma_prefix_step(w: Seq<char>, v: Seq<char>)
    requires
        w.len() > 0,
        v.len() > 0,
        is_letter(w[0]),
        is_letter(v[0]),
        slot_of(w[0]) == slot_of(v[0]),
    ensures
        prefix_of(w, v) == prefix_of(w.drop_first(), v.drop_first()),
{
    if w.len() <= v.len() {
        let t = v.take(w.len() as int);
        assert(t.drop_first() =~= v.drop_first().take(w.len() - 1));
        assert(t[0] == v[0]);
        lemma_same_word_step(w, t);
    }
}

proof fn lemma_size_upto_shift(a: Node, b: Node, k: int, d: nat, n: int)
    requires
        a.wf(),
        b.wf(),
        0 <= k < 26,
        0 <= n <= 26,
        forall|j: int| 0 <= j < 26 && j != k ==> #[trigger] a.child(j) == b.child(j),
        a.slot_size(k) == b.slot_size(k) + d,
    ensures
        a.size_upto(n) == b.size_upto(n) + if n > k {
            d
        } else {
            0
        },
    decreases n,
{
    a.lemma_size_unfold();
    b.lemma_size_unfold();
    if n > 0 {
        lemma_size_upto_shift(a, b, k, d, n - 1);
        if n - 1 != k {
            assert(a.slot_size(n - 1) == b.slot_size(n - 1));
        }
    }
}

/// The two nodes store the same words and have the same paths.
pub open spec fn alike(a: Node, b: Node) -> bool {
    &&& forall|w: Seq<char>| #[trigger] a.has(w) == b.has(w)
    &&& forall|w: Seq<char>| #[trigger] a.has_path(w) == b.has_path(w)
}

/// A spellable word is made of letters.
pub proof fn lemma_spellable_letters(w: Seq<char>, b: LetterBag)
    requires
        spellable(w, b),
    ensures
        all_letters(w),
    decreases w.len(),
{
    if w.len() > 0 {
        lemma_spellable_letters(w.drop_first(), residual(b, slot_of(w[0])));
        assert forall|i: int| 0 <= i < w.len() implies is_letter(#[trigger] w[i]) by {
            if i > 0 {
                assert(w[i] == w.drop_first()[i - 1]);
            }
        }
    }
}

proof fn lemma_spellable_head(w: Seq<char>, b: LetterBag)
    requires
        w.len() > 0,
        spellable(w, b),
    ensures
        'a' <= w[0] <= 'z',
        0 <= slot_of(w[0]) < 26,
{
}

proof fn lemma_slot_letter(c: char)
    requires
        'a' <= c <= 'z',
    ensures
        letter_at(slot_of(c)) == c,
{
}

proof fn lemma_concat_contains<A>(a: Seq<A>, b: Seq<A>, x: A)
    ensures
        (a + b).contains(x) <==> a.contains(x) || b.contains(x),
{
    if a.contains(x) {
        let i = choose|i: int| 0 <= i < a.len() && a[i] == x;
        assert((a + b)[i] == x);
    }
    if b.contains(x) {
        let i = choose|i: int| 0 <= i < b.len() && b[i] == x;
        assert((a + b)[a.len() + i] == x);
    }
    if (a + b).contains(x) {
        let i = choose|i: int| 0 <= i < (a + b).len() && (a + b)[i] == x;
        if i < a.len() {
            assert(a[i] == x);
        } else {
            assert(b[i - a.len()] == x);
        }
    }
}

proof fn lemma_concat_no_duplicates<A>(a: Seq<A>, b: Seq<A>)
    requires
        a.no_duplicates(),
        b.no_duplicates(),
        forall|x: A| a.contains(x) ==> !b.contains(x),
    ensures
        (a + b).no_duplicates(),
{
    let s = a + b;
    assert forall|i: int, j: int| 0 <= i < s.len() && 0 <= j < s.len() && i != j implies s[i] != s[j] by {
        if i < a.len() && j >= a.len() {
            assert(a.contains(s[i]));
            assert(b[j - a.len()] == s[j]);
        } else if j < a.len() && i >= a.len() {
            assert(a.contains(s[j]));
            assert(b[i - a.len()] == s[i]);
        } else if i >= a.len() && j >= a.len() {
            assert(b[i - a.len()] == s[i] && b[j - a.len()] == s[j]);
        }
    }
}

/// The strings of a list, as character sequences.
pub open spec fn words_of(v: Seq<String>) -> Seq<Seq<char>> {
    v.map_values(|s: String| s@)
}

proof fn lemma_next_available_is(b: LetterBag, k: int)
    requires
        0 <= k <= 26,
    ensures
        k <= next_available(b, k) <= 26,
        next_available(b, k) < 26 ==> available(b, next_available(b, k)),
    decreases 26 - k,
{
    if k < 26 && !available(b, k) {
        lemma_next_available_is(b, k + 1);
    }
}

proof fn lemma_same_word_step(w: Seq<char>, v: Seq<char>)
    requires
        w.len() > 0,
        v.len() > 0,
        is_letter(w[0]),
        is_letter(v[0]),
        slot_of(w[0]) == slot_of(v[0]),
    ensures
        same_word(w, v) == same_word(w.drop_first(), v.drop_first()),
{
    let (a, b) = (w.drop_first(), v.drop_first());
    assert(fold(a) =~= fold(w).drop_first());
    assert(fold(b) =~= fold(v).drop_first());
    assert(all_letters(w) == all_letters(a)) by {
        if all_letters(a) {
            assert forall|i: int| 0 <= i < w.len() implies is_letter(#[trigger] w[i]) by {
                if i > 0 {
                    assert(w[i] == a[i - 1]);
                }
            }
        }
        if all_letters(w) {
            assert forall|i: int| 0 <= i < a.len() implies is_letter(#[trigger] a[i]) by {
                assert(w[i + 1] == a[i]);
            }
        }
    }
    assert(all_letters(v) == all_letters(b)) by {
        if all_letters(b) {
            assert forall|i: int| 0 <= i < v.len() implies is_letter(#[trigger] v[i]) by {
                if i > 0 {
                    assert(v[i] == b[i - 1]);
                }
            }
        }
        if all_letters(v) {
            assert forall|i: int| 0 <= i < b.len() implies is_letter(#[trigger] b[i]) by {
                assert(v[i + 1] == b[i]);
            }
        }
    }
    if fold(a) == fold(b) && fold(w).len() == fold(v).len() {
        assert(fold(w)[0] == fold(v)[0]);
        assert(fold(w) =~= fold(v)) by {
            assert forall|i: int| 0 <= i < fold(w).len() implies fold(w)[i] == fold(v)[i] by {
                if i > 0 {
                    assert(fold(w)[i] == fold(a)[i - 1]);
                    assert(fold(v)[i] == fold(b)[i - 1]);
                }
            }
        }
    }
}

proof fn lemma_same_word_first(w: Seq<char>, v: Seq<char>)
    requires
        w.len() > 0,
        is_letter(w[0]),
        v.len() == 0 || (is_letter(v[0]) && slot_of(w[0]) != slot_of(v[0])),
    ensures
        !same_word(w, v),
{
    if v.len() > 0 && fold(w) == fold(v) {
        lemma_letter_slot(slot_of(w[0]));
        lemma_letter_slot(slot_of(v[0]));
        assert(fold(w)[0] == fold(v)[0]);
    } else if v.len() == 0 {
        assert(fold(w).len() != fold(v).len());
    }
}

} // verus!
