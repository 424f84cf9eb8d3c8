//! Tests for kind codes, kind parsing and the classifier edges.

use booky::kind::{parse_kinds, Kind};
use booky::lex::{make_word, Lexicon};
use booky::parse::tokenize;
use booky::parse::Chunk;

#[test]
fn all_kinds_in_order() {
    let all = Kind::all();
    assert_eq!(all.len(), 9);
    assert_eq!(all[0], Kind::Lexicon);
    assert_eq!(all[8], Kind::Unknown);
    let codes: Vec<char> = all.iter().map(|k| k.code()).collect();
    assert_eq!(codes, vec!['l', 'f', 'o', 'r', 'n', 'a', 'p', 's', 'u']);
}

#[test]
fn parse_kind_lists() {
    assert_eq!(parse_kinds("l,f"), Some(vec![Kind::Lexicon, Kind::Foreign]));
    assert_eq!(parse_kinds(" n , s "), Some(vec![Kind::Number, Kind::Symbol]));
    assert_eq!(parse_kinds("A"), Some(Kind::all()));
    assert_eq!(parse_kinds("l,A"), Some(Kind::all()));
    assert_eq!(parse_kinds("x"), None);
    assert_eq!(parse_kinds(""), None);
}

#[test]
fn classifier_first_match_wins() {
    let lex = Lexicon::from_lines("the:D\n").unwrap();
    let kinds: Vec<(String, Kind)> = tokenize(
        &lex,
        "The 0th 0TH MCMXC mcmxc A1 B.B.C. Zebra \u{2026}".as_bytes(),
    )
        .unwrap()
        .into_iter()
        .filter(|t| t.0 != Chunk::Boundary)
        .map(|t| (t.1, t.2))
        .collect();
    assert_eq!(kinds[0], ("The".to_string(), Kind::Lexicon));
    assert_eq!(kinds[1], ("0th".to_string(), Kind::Ordinal));
    assert_eq!(kinds[2], ("0TH".to_string(), Kind::Ordinal));
    assert_eq!(kinds[3], ("MCMXC".to_string(), Kind::Roman));
    assert_eq!(kinds[4], ("mcmxc".to_string(), Kind::Roman));
    assert_eq!(kinds[5], ("A1".to_string(), Kind::Number));
    assert_eq!(kinds[6], ("B.B.C.".to_string(), Kind::Acronym));
    assert_eq!(kinds[7], ("Zebra".to_string(), Kind::Proper));
    assert_eq!(kinds[8], ("\u{2026}".to_string(), Kind::Symbol));
}

#[test]
fn apostrophes_fold_together() {
    assert_eq!(make_word("don\u{0027}t"), make_word("don\u{2019}t"));
    assert_eq!(make_word("don\u{02bc}t"), make_word("don\u{ff07}t"));
    assert!(booky::is_apostrophe('\u{2019}'));
    assert!(!booky::is_apostrophe('`'));
}
