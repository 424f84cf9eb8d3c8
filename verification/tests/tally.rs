//! Tests for the word tally and its post-passes.

use booky::kind::Kind;
use booky::lex::Lexicon;
use booky::tally::{WordEntry, WordTally};

fn lexicon_of(words: &[&str]) -> Lexicon {
    let mut text = String::new();
    for w in words {
        text.push_str(w);
        text.push_str(":N.s\n");
    }
    Lexicon::from_lines(&text).unwrap()
}

fn entries_of(t: WordTally) -> Vec<(u64, String, Kind)> {
    t.into_entries().iter().map(|e| (e.seen(), e.word().to_string(), e.kind())).collect()
}

fn find(entries: &[(u64, String, Kind)], word: &str) -> (u64, String, Kind) {
    entries.iter().find(|e| e.1 == word).cloned().unwrap()
}

#[test]
fn case_folded_counts() {
    let lex = lexicon_of(&["the", "cat", "and"]);
    let mut t = WordTally::new();
    t.parse_text(&lex, "The cat and the CAT and THE cat.".as_bytes()).unwrap();
    let entries = entries_of(t);
    let the = find(&entries, "the");
    assert_eq!(the.0, 3);
    assert_eq!(the.2, Kind::Lexicon);
    let cat = find(&entries, "cat");
    assert_eq!(cat.0, 3);
    assert_eq!(cat.2, Kind::Lexicon);
    let and = find(&entries, "and");
    assert_eq!(and.0, 2);
}

#[test]
fn entries_sorted_by_seen_then_word() {
    let lex = lexicon_of(&[]);
    let mut t = WordTally::new();
    t.parse_text(&lex, "b b b a a c".as_bytes()).unwrap();
    let entries = entries_of(t);
    let pairs: Vec<(u64, String)> = entries.iter().map(|e| (e.0, e.1.clone())).collect();
    assert_eq!(
        pairs,
        vec![(1, "c".to_string()), (2, "a".to_string()), (3, "b".to_string())]
    );
}

#[test]
fn count_kind_matches_entries() {
    let lex = lexicon_of(&["one"]);
    let mut t = WordTally::new();
    t.parse_text(&lex, "one two 42 IV".as_bytes()).unwrap();
    let mut counts: Vec<(Kind, usize)> = Vec::new();
    for k in Kind::all() {
        counts.push((k, t.count_kind(k)));
    }
    let entries = entries_of(t);
    for (k, n) in counts {
        let m = entries.iter().filter(|e| e.2 == k).count();
        assert_eq!(n, m, "count mismatch for {:?}", k);
    }
}

#[test]
fn check_dict_reclassifies() {
    // Tally against an empty lexicon, then reclassify against one that
    // knows the word: the entry in the dictionary becomes Lexicon.
    let none = lexicon_of(&[]);
    let lex = lexicon_of(&["iv"]);
    let mut t = WordTally::new();
    t.parse_text(&none, "IV xyzzyq".as_bytes()).unwrap();
    t.check_dict(&lex);
    let entries = entries_of(t);
    assert_eq!(find(&entries, "IV").2, Kind::Lexicon);
    assert_eq!(find(&entries, "xyzzyq").2, Kind::Unknown);
}

#[test]
fn split_unknown_contractions_expands() {
    let lex = lexicon_of(&["do", "not"]);
    let mut t = WordTally::new();
    t.tally_word("don't", Kind::Unknown);
    t.tally_word("don't", Kind::Unknown);
    t.split_unknown_contractions(&lex);
    let entries = entries_of(t);
    assert_eq!(find(&entries, "do").0, 2);
    assert_eq!(find(&entries, "not").0, 2);
    assert!(entries.iter().all(|e| e.1 != "don't" && e.1 != "don\u{2019}t"));
}

#[test]
fn split_unknown_contractions_idempotent() {
    let lex = lexicon_of(&["do", "not"]);
    let mut t = WordTally::new();
    t.parse_text(&lex, "xy'q zz".as_bytes()).unwrap();
    t.tally_word("don't", Kind::Unknown);
    t.split_unknown_contractions(&lex);
    let once = entries_of(t.clone());
    t.split_unknown_contractions(&lex);
    let twice = entries_of(t);
    assert_eq!(once, twice);
}

#[test]
fn split_unknown_compounds_expands() {
    let lex = lexicon_of(&["test", "case"]);
    let mut t = WordTally::new();
    t.tally_word("blort-fizz", Kind::Unknown);
    t.tally_word("blort-fizz", Kind::Unknown);
    t.tally_word("blort-fizz", Kind::Unknown);
    t.split_unknown_compounds(&lex);
    let entries = entries_of(t);
    assert_eq!(find(&entries, "blort").0, 3);
    assert_eq!(find(&entries, "fizz").0, 3);
}

#[test]
fn fewest_uppercase_surface_wins() {
    let lex = lexicon_of(&[]);
    let mut t = WordTally::new();
    t.parse_text(&lex, "HELLO Hello hello".as_bytes()).unwrap();
    let entries = entries_of(t);
    assert_eq!(entries.len(), 1);
    assert_eq!(entries[0], (3, "hello".to_string(), Kind::Unknown));
}

#[test]
fn partial_tally_kept_on_bad_input() {
    let lex = lexicon_of(&[]);
    let mut t = WordTally::new();
    let mut bytes = "good ".as_bytes().to_vec();
    bytes.push(0xff);
    assert!(t.parse_text(&lex, &bytes).is_err());
    assert_eq!(t.len(), 1);
}

#[test]
fn entry_accessors() {
    let lex = lexicon_of(&["one"]);
    let mut t = WordTally::new();
    assert!(t.is_empty());
    t.parse_text(&lex, "one".as_bytes()).unwrap();
    assert!(!t.is_empty());
    assert_eq!(t.len(), 1);
    let entries: Vec<WordEntry> = t.into_entries();
    assert_eq!(entries[0].seen(), 1);
    assert_eq!(entries[0].word(), "one");
    assert_eq!(entries[0].kind(), Kind::Lexicon);
}
