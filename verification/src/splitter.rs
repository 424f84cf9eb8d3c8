//! Splitter for separating a byte stream into classified characters.
//!
//! All whitespace and control characters are discarded.

use vstd::prelude::*;
use vstd::utf8::{decode_first_scalar, pop_first_scalar, valid_first_scalar};
use crate::unicode::{
    alnum_char, char_is_alphanumeric, control_char, is_apostrophe, is_boundary, spec_is_apostrophe,
    white_char,
};
use crate::unicode::{char_is_control, char_is_whitespace};
use crate::utf8::{CharSplitter, InvalidUtf8};

verus! {

/// Character chunk types.
#[derive(Clone, Copy, Debug, PartialEq, Eq, Structural)]
pub enum Chunk {
    /// Alphanumeric character or apostrophe text.
    Text(char),
    /// Any non-`Text` displayable character.
    Symbol(char),
    /// Discard character.
    Discard,
}

/// The chunk of a single character: whitespace, control characters and
/// the byte-order mark are discarded; alphanumeric characters and
/// apostrophes are text; everything else is a symbol.
pub open spec fn spec_char_chunk(c: char) -> Chunk {
    if white_char(c) || control_char(c) || c == '\u{FEFF}' {
        Chunk::Discard
    } else if alnum_char(c) || spec_is_apostrophe(c) {
        Chunk::Text(c)
    } else {
        Chunk::Symbol(c)
    }
}

impl Chunk {
    /// Determine chunk type from a single character.
    pub fn from_char(c: char) -> (r: Chunk)
        ensures
            r == spec_char_chunk(c),
    {
        if char_is_whitespace(c) || char_is_control(c) || c == '\u{FEFF}' {
            Chunk::Discard
        } else if char_is_alphanumeric(c) || is_apostrophe(c) {
            Chunk::Text(c)
        } else {
            Chunk::Symbol(c)
        }
    }
}

/// Splitter for separating string chunks.
pub struct WordSplitter<'a> {
    /// The underlying character splitter.
    splitter: CharSplitter<'a>,
}

impl<'a> WordSplitter<'a> {
    /// The splitter is well formed.
    pub closed spec fn wf(self) -> bool {
        self.splitter.wf()
    }

    /// The bytes not yet decoded.
    pub closed spec fn remaining(self) -> Seq<u8> {
        self.splitter.remaining()
    }

    /// Create a new word splitter.
    pub fn new(bytes: &'a [u8]) -> (r: WordSplitter<'a>)
        ensures
            r.wf(),
            r.remaining() == bytes@,
    {
        WordSplitter { splitter: CharSplitter::new(bytes) }
    }

    /// Get the next character's chunk: `None` at the end of the input,
    /// the UTF-8 error when the bytes are ill-formed, else the chunk of
    /// the next decoded character.
    pub fn next(&mut self) -> (r: Option<Result<Chunk, InvalidUtf8>>)
        requires
            old(self).wf(),
        ensures
            final(self).wf(),
            r is None <==> old(self).remaining().len() == 0,
            r matches Some(Result::<Chunk, InvalidUtf8>::Ok(ch)) ==> ({
                &&& valid_first_scalar(old(self).remaining())
                &&& ch == spec_char_chunk(
                    (decode_first_scalar(old(self).remaining()) as char),
                )
                &&& final(self).remaining() == pop_first_scalar(old(self).remaining())
            }),
            r == Some(Result::<Chunk, InvalidUtf8>::Err(InvalidUtf8)) <==> old(
                self,
            ).remaining().len() > 0 && !valid_first_scalar(old(self).remaining()),
    {
        match self.splitter.next_char() {
            None => None,
            Some(Err(e)) => Some(Err(e)),
            Some(Ok(c)) => {
                proof {
                    vstd::utf8::char_u32_cast(
                        c,
                        decode_first_scalar(old(self).remaining()),
                    );
                }
                Some(Ok(Chunk::from_char(c)))
            },
        }
    }
}

} // verus!
