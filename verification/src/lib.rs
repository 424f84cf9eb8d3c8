//! Analysis of English prose: a lexicon of inflected word forms, a
//! streaming tokenizer, and a case-folded word tally.

pub mod chunk;
pub mod contractions;
pub mod kind;
pub mod lex;
pub mod parse;
pub mod splitter;
pub mod tally;
pub mod unicode;
pub mod utf8;
pub mod word;

pub use unicode::is_apostrophe;
