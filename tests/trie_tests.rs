use trie_anagrams::char_index::{char_to_index, index_to_char};
use trie_anagrams::errors::TrieError;
use trie_anagrams::letters::{Letter, Letters, LettersIter};
use trie_anagrams::node::Node;
use trie_anagrams::trie::Trie;

fn build(words: &[&str]) -> Trie {
    let list: Vec<String> = words.iter().map(|w| w.to_string()).collect();
    Trie::from_words(&list)
}

fn sorted(mut v: Vec<String>) -> Vec<String> {
    v.sort();
    v
}

fn strings(words: &[&str]) -> Vec<String> {
    sorted(words.iter().map(|w| w.to_string()).collect())
}

#[test]
fn char_index_round_trip() {
    assert_eq!(char_to_index('a'), Ok(0));
    assert_eq!(char_to_index('Z'), Ok(25));
    assert_eq!(char_to_index('m'), Ok(12));
    assert_eq!(char_to_index('?'), Err(TrieError::NonAlphabeticIndexError));
    assert_eq!(char_to_index('3'), Err(TrieError::NonAlphabeticIndexError));
    assert_eq!(index_to_char(0), Ok('a'));
    assert_eq!(index_to_char(25), Ok('z'));
    assert_eq!(index_to_char(26), Err(TrieError::NonAlphabeticIndexError));
}

#[test]
fn inserted_words_are_found() {
    let mut t = Trie::new();
    for w in ["cat", "car", "do", "dog"] {
        assert_eq!(t.insert(w.to_string()), Ok(()));
    }
    for w in ["cat", "car", "do", "dog", "CAT"] {
        assert_eq!(t.find(w.to_string()), Ok(true));
    }
    for w in ["ca", "d", "cars", "dot", "", "zebra"] {
        assert_eq!(t.find(w.to_string()), Ok(false));
    }
}

#[test]
fn empty_word_is_stored() {
    let mut t = Trie::new();
    assert_eq!(t.find(String::new()), Ok(false));
    assert_eq!(t.insert(String::new()), Ok(()));
    assert_eq!(t.find(String::new()), Ok(true));
    assert_eq!(t.node_count(), 1);
}

#[test]
fn insert_rejects_non_letters() {
    let mut t = Trie::new();
    assert_eq!(t.insert("ab3".to_string()), Err(TrieError::NonAlphabeticIndexError));
    assert_eq!(t.find("ab".to_string()), Ok(false));
    assert_eq!(t.insert("".to_string()), Ok(()));
    assert_eq!(t.insert("a b".to_string()), Err(TrieError::NonAlphabeticIndexError));
}

#[test]
fn find_stops_at_missing_prefix_before_bad_char() {
    let t = build(&["cat"]);
    assert_eq!(t.find("zz3".to_string()), Ok(false));
    assert_eq!(t.find("c3".to_string()), Err(TrieError::NonAlphabeticIndexError));
}

#[test]
fn from_words_skips_bad_lines() {
    let t = build(&["cat", "b4d", "", "Dog"]);
    assert_eq!(t.find("cat".to_string()), Ok(true));
    assert_eq!(t.find("dog".to_string()), Ok(true));
    assert_eq!(t.find("b".to_string()), Ok(false));
    assert_eq!(t.find("".to_string()), Ok(false));
    assert_eq!(t.anagrams("cat".to_string()).ok().unwrap(), vec!["cat".to_string()]);
}

#[test]
fn node_count_counts_shared_prefixes_once() {
    let t = build(&["cat", "car", "do"]);
    // root, c, a, t, r, d, o
    assert_eq!(t.node_count(), 7);
    assert_eq!(Trie::new().node_count(), 1);
}

#[test]
fn letters_parse_and_reject() {
    assert!(Letters::from_string("abc".to_string()).is_ok());
    assert!(Letters::from_string("AbC??".to_string()).is_ok());
    assert!(Letters::from_string("".to_string()).is_ok());
    assert_eq!(
        Letters::from_string("bl u3".to_string()).err(),
        Some(TrieError::NonAlphabeticIndexError)
    );
}

fn drain(mut it: LettersIter) -> Vec<char> {
    let mut out = Vec::new();
    while let Some(Letter(c, _)) = it.next() {
        out.push(c);
    }
    out
}

#[test]
fn letters_total_matches_length() {
    // every slot offered once per available copy, walked down to nothing
    fn total(l: Letters) -> usize {
        let mut it = l.into_iter();
        match it.next() {
            Some(Letter(_, rest)) => 1 + total(rest),
            None => 0,
        }
    }
    for s in ["", "a", "abc", "zZ", "a?", "??", "hello?"] {
        let l = Letters::from_string(s.to_string()).ok().unwrap();
        assert_eq!(total(l), s.chars().count());
    }
}

#[test]
fn iteration_offers_each_slot_once_in_order() {
    let l = Letters::from_string("cab".to_string()).ok().unwrap();
    assert_eq!(drain(l.into_iter()), vec!['a', 'b', 'c']);
    let l = Letters::from_string("b?".to_string()).ok().unwrap();
    let all: Vec<char> = ('a'..='z').collect();
    assert_eq!(drain(LettersIter::new(l)), all);
    let l = Letters::from_string("".to_string()).ok().unwrap();
    assert_eq!(drain(l.into_iter()), Vec::<char>::new());
}

#[test]
fn iteration_prefers_real_letter_over_wildcard() {
    let l = Letters::from_string("a?".to_string()).ok().unwrap();
    let mut it = l.into_iter();
    let Letter(c, rest) = it.next().unwrap();
    assert_eq!(c, 'a');
    // the wildcard is left: every slot is still offered
    let all: Vec<char> = ('a'..='z').collect();
    assert_eq!(drain(rest.into_iter()), all);
    let Letter(c, rest) = it.next().unwrap();
    assert_eq!(c, 'b');
    // the wildcard was used: only the real `a` is left
    assert_eq!(drain(rest.into_iter()), vec!['a']);
}

#[test]
fn contains_ignores_wildcards() {
    let big = Letters::from_string("aabc".to_string()).ok().unwrap();
    let small = Letters::from_string("abc".to_string()).ok().unwrap();
    let wild = Letters::from_string("ab????".to_string()).ok().unwrap();
    let more = Letters::from_string("aaa".to_string()).ok().unwrap();
    assert!(big.contains(&small));
    assert!(!small.contains(&big));
    assert!(big.contains(&wild));
    assert!(!big.contains(&more));
    assert!(!wild.contains(&small));
}

#[test]
fn anagrams_of_tac() {
    let t = build(&["cat", "act", "tac", "ca"]);
    let r = sorted(t.anagrams("tac".to_string()).ok().unwrap());
    assert_eq!(r, strings(&["act", "ca", "cat", "tac"]));
}

#[test]
fn anagrams_keep_prefix_words() {
    let t = build(&["cat", "act", "ca"]);
    let r = sorted(t.anagrams("cat".to_string()).ok().unwrap());
    assert_eq!(r, strings(&["act", "ca", "cat"]));
}

#[test]
fn anagrams_with_wildcard() {
    let t = build(&["an", "at", "aa"]);
    let r = sorted(t.anagrams("a?".to_string()).ok().unwrap());
    assert_eq!(r, strings(&["aa", "an", "at"]));
}

#[test]
fn wildcard_word_found_once() {
    let t = build(&["aa"]);
    assert_eq!(t.anagrams("a?".to_string()).ok().unwrap(), vec!["aa".to_string()]);
    assert_eq!(t.anagrams("??".to_string()).ok().unwrap(), vec!["aa".to_string()]);
    assert_eq!(t.anagrams("a".to_string()).ok().unwrap(), Vec::<String>::new());
}

#[test]
fn anagrams_have_no_duplicates() {
    let t = build(&["a", "ab", "ba", "abc", "cab", "bb", "b"]);
    for input in ["abc", "ab?", "???", "b?"] {
        let r = t.anagrams(input.to_string()).ok().unwrap();
        let mut d = r.clone();
        d.sort();
        d.dedup();
        assert_eq!(d.len(), r.len());
    }
}

#[test]
fn anagrams_order_follows_letters() {
    let t = build(&["b", "ab", "a", "ba"]);
    let r = t.anagrams("ab".to_string()).ok().unwrap();
    assert_eq!(r, vec!["a", "ab", "b", "ba"]);
}

#[test]
fn anagrams_are_case_insensitive_on_input() {
    let t = build(&["dog", "god"]);
    let r = sorted(t.anagrams("GoD".to_string()).ok().unwrap());
    assert_eq!(r, strings(&["dog", "god"]));
}

#[test]
fn malformed_search_string_fails() {
    let t = build(&["blue"]);
    assert_eq!(t.anagrams("bl u3".to_string()).err(), Some(TrieError::NonAlphabeticIndexError));
}

#[test]
fn same_list_gives_same_results() {
    let list = ["stop", "pots", "tops", "opt", "spot", "post", "so"];
    let a = sorted(build(&list).anagrams("stop?".to_string()).ok().unwrap());
    let b = sorted(build(&list).anagrams("stop?".to_string()).ok().unwrap());
    assert_eq!(a, b);
    assert!(a.contains(&"spot".to_string()));
}

#[test]
fn empty_trie_and_empty_letters() {
    let t = Trie::new();
    assert_eq!(t.anagrams("abc".to_string()).ok().unwrap(), Vec::<String>::new());
    let t = build(&["", "a"]);
    assert_eq!(t.anagrams("".to_string()).ok().unwrap(), Vec::<String>::new());
    assert_eq!(t.anagrams("a".to_string()).ok().unwrap(), vec!["a".to_string()]);
}

#[test]
fn node_search_with_prefix() {
    let mut n = Node::new();
    assert_eq!(n.insert("at"), Ok(()));
    assert_eq!(n.find("at"), Ok(true));
    assert_eq!(n.find("a"), Ok(false));
    let l = Letters::from_string("ta".to_string()).ok().unwrap();
    assert_eq!(n.anagrams(l, "c".to_string()), vec!["cat".to_string()]);
    assert_eq!(n.node_count(), 3);
    let slot = n.get_or_create('B').ok().unwrap();
    assert_eq!(slot, 1);
    assert!(n.get('b').ok().unwrap().is_some());
    assert!(n.get('z').ok().unwrap().is_none());
    assert!(n.get('!').is_err());
    assert_eq!(n.node_count(), 4);
}

#[test]
fn wildcards_cover_missing_copies() {
    let t = build(&["aab", "abb", "bbb", "ab", "c", "abc"]);
    let r = sorted(t.anagrams("a?b".to_string()).ok().unwrap());
    assert_eq!(r, strings(&["aab", "ab", "abb", "abc", "c"]));
    let r = sorted(t.anagrams("ab".to_string()).ok().unwrap());
    assert_eq!(r, strings(&["ab"]));
}

#[test]
fn node_count_grows_by_new_prefixes() {
    let mut t = Trie::new();
    assert_eq!(t.insert("blue".to_string()), Ok(()));
    assert_eq!(t.node_count(), 5);
    assert_eq!(t.anagrams("bl u3".to_string()).err(), Some(TrieError::NonAlphabeticIndexError));
    assert_eq!(t.find("blue".to_string()), Ok(true));
    assert_eq!(t.node_count(), 5);
    // "blues" adds one node, "BLUE" none
    assert_eq!(t.insert("blues".to_string()), Ok(()));
    assert_eq!(t.node_count(), 6);
    assert_eq!(t.insert("BLUE".to_string()), Ok(()));
    assert_eq!(t.node_count(), 6);
    let mut n = Node::new();
    assert_eq!(n.insert("ab"), Ok(()));
    assert_eq!(n.node_count(), 3);
}

#[test]
fn failed_insert_changes_nothing() {
    let mut t = build(&["cat"]);
    assert_eq!(t.insert("dog3".to_string()), Err(TrieError::NonAlphabeticIndexError));
    assert_eq!(t.node_count(), 4);
    assert_eq!(t.find("d3".to_string()), Ok(false));
}

#[test]
fn reinsert_changes_nothing() {
    let mut t = build(&["cat", "car"]);
    assert_eq!(t.node_count(), 5);
    let before = t.anagrams("tcar".to_string()).ok().unwrap();
    assert_eq!(t.insert("cat".to_string()), Ok(()));
    assert_eq!(t.node_count(), 5);
    assert_eq!(t.anagrams("tcar".to_string()).ok().unwrap(), before);
    assert_eq!(t.find("ca".to_string()), Ok(false));
}

#[test]
fn blank_lines_are_skipped() {
    let t = build(&["", "", "at"]);
    assert_eq!(t.find("".to_string()), Ok(false));
    assert_eq!(t.node_count(), 3);
}
