//! Tests for the lexicon: folding, lookup and the forms index.

use booky::lex::{make_word, word_class, Lexicon};
use booky::word::WordClass;

fn small_lexicon() -> Lexicon {
    Lexicon::from_lines("try:V\nanalysis:N\ncafé:N\nbear:N\nbear:V,bore,borne\n").unwrap()
}

#[test]
fn make_word_folds() {
    assert_eq!(make_word("ABC"), "abc");
    assert_eq!(make_word("Don\u{2019}t"), "don't");
    assert_eq!(make_word("caf\u{e9}"), "caf\u{e9}");
}

#[test]
fn contains_is_case_folded() {
    let lex = small_lexicon();
    assert!(lex.contains("try"));
    assert!(lex.contains("TRIES"));
    assert!(lex.contains("Trying"));
    assert!(lex.contains("analyses"));
    assert!(lex.contains("café"));
    assert!(lex.contains("cafe"));
    assert!(!lex.contains("tryes"));
}

#[test]
fn every_indexed_form_is_contained() {
    let lex = small_lexicon();
    for form in lex.forms() {
        assert!(lex.contains(&form), "form {form} not found");
        let entries = lex.word_entries(&form);
        assert!(!entries.is_empty(), "no entry for {form}");
        assert!(
            entries.iter().any(|w| w.forms().iter().any(|f| make_word(f) == form)),
            "no lexeme owns {form}"
        );
    }
}

#[test]
fn shared_forms_list_all_entries() {
    let lex = small_lexicon();
    let entries = lex.word_entries("bear");
    assert_eq!(entries.len(), 2);
    assert_eq!(entries[0].word_class(), WordClass::Noun);
    assert_eq!(entries[1].word_class(), WordClass::Verb);
}

#[test]
fn word_class_of_unambiguous_word() {
    let lex = small_lexicon();
    assert_eq!(word_class(&lex, "analysis"), Some(WordClass::Noun));
    assert_eq!(word_class(&lex, "bear"), None);
    assert_eq!(word_class(&lex, "zebra"), None);
}

#[test]
fn bad_line_number_reported() {
    let r = Lexicon::from_lines("try:V\nbroken\ncafé:N\n");
    assert_eq!(r.err(), Some(1));
}

#[test]
fn irregular_forms_indexed() {
    let lex = small_lexicon();
    assert!(lex.contains("bore"));
    assert!(lex.contains("borne"));
}

#[test]
fn lexeme_accessors() {
    let lex = small_lexicon();
    let words = lex.iter();
    assert_eq!(words.len(), 5);
    assert_eq!(words[0].lemma(), "try");
    assert_eq!(words[0].word_class(), WordClass::Verb);
}

#[test]
fn into_sorted_orders_lexemes() {
    let lex = small_lexicon();
    let sorted = lex.into_sorted();
    let lemmas: Vec<&str> = sorted.iter().map(|w| w.lemma()).collect();
    assert_eq!(lemmas, vec!["analysis", "bear", "bear", "café", "try"]);
    assert_eq!(sorted[1].word_class(), WordClass::Noun);
    assert_eq!(sorted[2].word_class(), WordClass::Verb);
}
