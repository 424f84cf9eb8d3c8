//! Tests for lexemes, variant spellings and the irregular-form codec.

use booky::word::{decode_irregular, encode_irregular, Lexeme, WordAttr, WordClass};

fn chars(s: &str) -> Vec<char> {
    s.chars().collect()
}

fn string_of(v: &[char]) -> String {
    v.iter().collect()
}

#[test]
fn variants() {
    let lex = Lexeme::try_from_line("café:N").unwrap();
    assert_eq!(lex.variant_spellings(), vec!["café", "cafe"]);
    let lex = Lexeme::try_from_line("façade:N").unwrap();
    assert_eq!(lex.variant_spellings(), vec!["façade", "facade"]);
    let lex = Lexeme::try_from_line("appliqué:V,-és,-éing,-éd").unwrap();
    assert_eq!(lex.variant_spellings(), vec!["appliqué", "applique"]);
    let lex = Lexeme::try_from_line("anæsthetize:V.z").unwrap();
    assert_eq!(
        lex.variant_spellings(),
        vec![
            "anæsthetize",
            "anaesthetize",
            "anesthetize",
            "anæsthetise",
            "anaesthetise",
            "anesthetise",
        ]
    );
}

#[test]
fn irregular() {
    let a = decode_irregular(&chars("addendum"), &chars("-da")).unwrap();
    let form = encode_irregular(&chars("addendum"), &a);
    assert_eq!(string_of(&form), "-da");
}

#[test]
fn irregular_decode_gives_form() {
    let a = decode_irregular(&chars("addendum"), &chars("-da")).unwrap();
    assert_eq!(string_of(&a), "addenda");
    // A plain token decodes to itself.
    let b = decode_irregular(&chars("go"), &chars("went")).unwrap();
    assert_eq!(string_of(&b), "went");
    // A suffix whose joiner misses the lemma fails.
    assert!(decode_irregular(&chars("go"), &chars("-xyz")).is_none());
}

#[test]
fn irregular_round_trip_many() {
    for (lemma, form) in [
        ("addendum", "addenda"),
        ("analysis", "analyses"),
        ("child", "children"),
        ("mouse", "mice"),
        ("go", "went"),
    ] {
        let enc = encode_irregular(&chars(lemma), &chars(form));
        let dec = decode_irregular(&chars(lemma), &enc).unwrap();
        assert_eq!(string_of(&dec), form);
    }
}

#[test]
fn regular_verb_forms() {
    let lex = Lexeme::try_from_line("try:V").unwrap();
    let forms = lex.forms();
    for f in ["try", "tries", "trying", "tried"] {
        assert!(forms.iter().any(|x| x == f), "missing {f}");
    }
}

#[test]
fn regular_noun_plural() {
    let lex = Lexeme::try_from_line("analysis:N").unwrap();
    let forms = lex.forms();
    for f in ["analysis", "analyses"] {
        assert!(forms.iter().any(|x| x == f), "missing {f}");
    }
}

#[test]
fn variant_spellings_in_forms() {
    let lex = Lexeme::try_from_line("café:N").unwrap();
    assert_eq!(lex.variant_spellings(), vec!["café", "cafe"]);
    let forms = lex.forms();
    for v in lex.variant_spellings() {
        assert!(forms.iter().any(|x| *x == v), "variant {v} missing in forms");
    }
}

#[test]
fn adjective_forms() {
    let lex = Lexeme::try_from_line("big:A").unwrap();
    let forms = lex.forms();
    for f in ["big", "bigger", "biggest"] {
        assert!(forms.iter().any(|x| x == f), "missing {f}");
    }
}

#[test]
fn malformed_lines_rejected() {
    assert!(Lexeme::try_from_line("").is_none());
    assert!(Lexeme::try_from_line("word").is_none());
    assert!(Lexeme::try_from_line("word:X").is_none());
    assert!(Lexeme::try_from_line(":N").is_none());
    assert!(Lexeme::try_from_line("go:V,-xyz").is_none());
}

#[test]
fn word_class_codes() {
    assert_eq!(WordClass::try_from_code("N"), Some(WordClass::Noun));
    assert_eq!(WordClass::try_from_code("Av"), Some(WordClass::Adverb));
    assert_eq!(WordClass::try_from_code("Pn"), Some(WordClass::Pronoun));
    assert_eq!(WordClass::try_from_code("Q"), None);
    assert_eq!(WordClass::Adverb.code(), "Av");
    assert_eq!(WordClass::Noun.code(), "N");
}

#[test]
fn word_attr_codes() {
    assert_eq!(WordAttr::try_from_char('s'), Some(WordAttr::SingulareTantum));
    assert_eq!(WordAttr::try_from_char('z'), Some(WordAttr::AlternateZ));
    assert_eq!(WordAttr::try_from_char('q'), None);
}

#[test]
fn singulare_tantum_has_no_plural() {
    let lex = Lexeme::try_from_line("dust:N.s").unwrap();
    assert_eq!(lex.forms(), &vec!["dust".to_string()]);
}

#[test]
fn show_class_selection() {
    assert!(booky::word::show_class(&None, WordClass::Verb));
    assert!(booky::word::show_class(&Some("N,V".to_string()), WordClass::Verb));
    assert!(!booky::word::show_class(&Some("N".to_string()), WordClass::Verb));
    assert!(!booky::word::show_class(&Some("X,V".to_string()), WordClass::Verb));
}
