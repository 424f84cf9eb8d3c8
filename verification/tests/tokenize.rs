//! Tests for the chunker, the tokenizer and the word splitter.

use booky::chunk::{chunks_of, parse_text, ChunkHandler};
use booky::contractions::split;
use booky::kind::Kind;
use booky::lex::Lexicon;
use booky::parse::{tokenize, Chunk, Parser};
use booky::splitter::{Chunk as CharChunk, WordSplitter};

fn lexicon_of(words: &[&str]) -> Lexicon {
    let mut text = String::new();
    for w in words {
        text.push_str(w);
        text.push_str(":N.s\n");
    }
    Lexicon::from_lines(&text).unwrap()
}

fn words_of(triples: &[(Chunk, String, Kind)]) -> Vec<(String, Kind)> {
    triples
        .iter()
        .filter(|t| t.0 != Chunk::Boundary)
        .map(|t| (t.1.clone(), t.2))
        .collect()
}

#[test]
fn contraction_and_compound_split() {
    let lex = lexicon_of(&["it", "is", "a", "test", "case"]);
    let out = tokenize(&lex, "It's a test-case.".as_bytes()).unwrap();
    let words = words_of(&out);
    let expected = [
        ("it", Kind::Lexicon),
        ("is", Kind::Lexicon),
        ("a", Kind::Lexicon),
        ("test", Kind::Lexicon),
        ("-", Kind::Symbol),
        ("case", Kind::Lexicon),
        (".", Kind::Symbol),
    ];
    assert_eq!(words.len(), expected.len());
    for (got, want) in words.iter().zip(expected.iter()) {
        assert_eq!(got.0, want.0);
        assert_eq!(got.1, want.1);
    }
}

#[test]
fn acronyms_kept_whole() {
    let lex = lexicon_of(&["went", "to"]);
    let out = tokenize(&lex, "U.S.A. went to NATO".as_bytes()).unwrap();
    let words = words_of(&out);
    assert_eq!(words[0], ("U.S.A.".to_string(), Kind::Acronym));
    assert_eq!(words[1], ("went".to_string(), Kind::Lexicon));
    assert_eq!(words[2], ("to".to_string(), Kind::Lexicon));
    assert_eq!(words[3], ("NATO".to_string(), Kind::Acronym));
}

#[test]
fn number_kinds() {
    let lex = lexicon_of(&[]);
    let out = tokenize(&lex, "3rd, IV, 42, naïve".as_bytes()).unwrap();
    let words: Vec<(String, Kind)> = words_of(&out)
        .into_iter()
        .filter(|w| w.0 != ",")
        .collect();
    assert_eq!(words[0], ("3rd".to_string(), Kind::Ordinal));
    assert_eq!(words[1], ("IV".to_string(), Kind::Roman));
    assert_eq!(words[2], ("42".to_string(), Kind::Number));
    assert_eq!(words[3], ("naïve".to_string(), Kind::Foreign));
}

#[test]
fn proper_symbol_unknown_kinds() {
    let lex = lexicon_of(&[]);
    let out = tokenize(&lex, "Paris ? zzgq".as_bytes()).unwrap();
    let words = words_of(&out);
    assert_eq!(words[0], ("Paris".to_string(), Kind::Proper));
    assert_eq!(words[1], ("?".to_string(), Kind::Symbol));
    assert_eq!(words[2], ("zzgq".to_string(), Kind::Unknown));
}

#[test]
fn invalid_utf8_is_an_error() {
    let lex = lexicon_of(&[]);
    assert!(tokenize(&lex, &[0x61, 0xff, 0x62]).is_err());
    assert!(tokenize(&lex, &[0x61, 0xc3]).is_err());
    assert!(chunks_of(&[0xf0, 0x9f]).is_err());
}

#[test]
fn chunker_conserves_text() {
    let input = "ab c-d. O'Hara";
    let chunks = chunks_of(input.as_bytes()).unwrap();
    let mut joined = String::new();
    for (_k, s) in &chunks {
        joined.push_str(s);
    }
    let canonical: String = input
        .chars()
        .map(|c| if c == '\'' { '\u{2019}' } else { c })
        .collect();
    assert_eq!(joined, canonical);
}

#[test]
fn sentence_final_dot_split() {
    let chunks = chunks_of("cat.".as_bytes()).unwrap();
    let texts: Vec<&str> = chunks.iter().map(|c| c.1.as_str()).collect();
    assert_eq!(texts, vec!["cat", "."]);
}

struct Collector {
    texts: Vec<String>,
    symbols: Vec<String>,
    boundaries: Vec<String>,
}

impl ChunkHandler for Collector {
    fn text(&mut self, ch: &str) {
        self.texts.push(ch.to_string());
    }

    fn symbol(&mut self, ch: &str) {
        self.symbols.push(ch.to_string());
    }

    fn boundary(&mut self, ch: &str) {
        self.boundaries.push(ch.to_string());
    }
}

#[test]
fn handler_receives_chunks() {
    let mut h = Collector { texts: Vec::new(), symbols: Vec::new(), boundaries: Vec::new() };
    parse_text("one two.".as_bytes(), &mut h).unwrap();
    assert_eq!(h.texts, vec!["one", "two"]);
    assert_eq!(h.symbols, vec!["."]);
    assert_eq!(h.boundaries, vec![" "]);
}

#[test]
fn parser_is_lazy_and_complete() {
    let lex = lexicon_of(&["one"]);
    let bytes = "one ?".as_bytes();
    let mut p = Parser::new(&lex, bytes);
    let mut words: Vec<(String, Kind)> = Vec::new();
    while let Some(r) = p.next() {
        let (chunk, text, kind) = r.unwrap();
        if chunk != Chunk::Boundary {
            words.push((text, kind));
        }
    }
    assert_eq!(words, vec![("one".to_string(), Kind::Lexicon), ("?".to_string(), Kind::Symbol)]);
}

#[test]
fn contraction_table_order() {
    assert_eq!(split("can't"), vec!["can", "not"]);
    assert_eq!(split("CAN'T"), vec!["can", "not"]);
    assert_eq!(split("he's"), vec!["he", "is"]);
    assert_eq!(split("dog's"), vec!["dog", ""]);
    assert_eq!(split("runnin\u{2019}"), vec!["running"]);
    assert_eq!(split("he'd've"), vec!["he", "would", "have"]);
    assert_eq!(split("plain"), vec!["plain"]);
}

#[test]
fn word_splitter_classifies() {
    let mut s = WordSplitter::new("a !".as_bytes());
    assert_eq!(s.next(), Some(Ok(CharChunk::Text('a'))));
    assert_eq!(s.next(), Some(Ok(CharChunk::Discard)));
    assert_eq!(s.next(), Some(Ok(CharChunk::Symbol('!'))));
    assert_eq!(s.next(), None);
    let mut bad = WordSplitter::new(&[0xff]);
    assert!(matches!(bad.next(), Some(Err(_))));
}

#[test]
fn double_dash_breaks_compound() {
    let chunks = chunks_of("well--known".as_bytes()).unwrap();
    let texts: Vec<&str> = chunks.iter().map(|c| c.1.as_str()).collect();
    assert_eq!(texts, vec!["well-", "-", "known"]);
}
