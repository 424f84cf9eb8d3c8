//! Incremental UTF-8 decoding over a byte slice.
//!
//! The decoder is verified against the UTF-8 model in `vstd::utf8`: it
//! accepts exactly the well-formed scalar encodings (rejecting overlong
//! encodings and surrogates) and yields the decoded scalar.

use vstd::prelude::*;
use vstd::utf8::{
    decode_first_scalar, is_scalar, length_of_first_scalar, valid_first_scalar,
};
use crate::unicode::char_from_u32;

verus! {

/// The error raised when the input bytes are not valid UTF-8.
#[derive(Clone, Copy, Debug, PartialEq, Eq, Structural)]
pub struct InvalidUtf8;

/// Decode the first UTF-8 scalar of `bytes[pos..]`.
///
/// Returns the decoded character and the length in bytes of its encoding,
/// or `None` when the slice does not begin with a well-formed scalar
/// encoding (a truncated, overlong, surrogate or out-of-range sequence).
pub fn decode_first_char(bytes: &[u8], pos: usize) -> (r: Option<(char, usize)>)
    requires
        pos <= bytes@.len(),
    ensures
        r is Some <==> valid_first_scalar(bytes@.skip(pos as int)),
        r matches Some(p) ==> ({
            &&& p.0 as u32 == decode_first_scalar(bytes@.skip(pos as int))
            &&& p.1 as int == length_of_first_scalar(bytes@.skip(pos as int))
            &&& pos + p.1 <= bytes@.len()
        }),
{
    let ghost rest = bytes@.skip(pos as int);
    let len = bytes.len();
    if pos == len {
        return None;
    }
    let b0 = bytes[pos];
    proof {
        assert(rest.len() == bytes@.len() - pos);
        assert(rest[0] == b0);
    }
    if b0 <= 0x7f {
        let cp: u32 = b0 as u32;
        assert(cp == (b0 & 0x7f) as u32) by (bit_vector)
            requires
                b0 <= 0x7f && cp == b0 as u32,
        ;
        match char_from_u32(cp) {
            Some(c) => Some((c, 1)),
            None => None,
        }
    } else if 0xc0 <= b0 && b0 <= 0xdf {
        if len - pos < 2 {
            return None;
        }
        let b1 = bytes[pos + 1];
        proof {
            assert(rest[1] == b1);
        }
        if !(0x80 <= b1 && b1 <= 0xbf) {
            return None;
        }
        let hi: u32 = (b0 & 0x1f) as u32;
        let lo: u32 = (b1 & 0x3f) as u32;
        assert(hi <= 0x1f && lo <= 0x3f) by (bit_vector)
            requires
                hi == (b0 & 0x1f) as u32 && lo == (b1 & 0x3f) as u32,
        ;
        let cp: u32 = (hi << 6) | lo;
        assert(cp <= 0x7ff) by (bit_vector)
            requires
                cp == (hi << 6) | lo && hi <= 0x1f && lo <= 0x3f,
        ;
        if cp < 0x80 {
            return None;
        }
        match char_from_u32(cp) {
            Some(c) => Some((c, 2)),
            None => None,
        }
    } else if 0xe0 <= b0 && b0 <= 0xef {
        if len - pos < 3 {
            return None;
        }
        let b1 = bytes[pos + 1];
        let b2 = bytes[pos + 2];
        proof {
            assert(rest[1] == b1 && rest[2] == b2);
        }
        if !(0x80 <= b1 && b1 <= 0xbf) || !(0x80 <= b2 && b2 <= 0xbf) {
            return None;
        }
        let hi: u32 = (b0 & 0x0f) as u32;
        let mid: u32 = (b1 & 0x3f) as u32;
        let lo: u32 = (b2 & 0x3f) as u32;
        assert(hi <= 0x0f && mid <= 0x3f && lo <= 0x3f) by (bit_vector)
            requires
                hi == (b0 & 0x0f) as u32 && mid == (b1 & 0x3f) as u32 && lo == (b2 & 0x3f) as u32,
        ;
        let cp: u32 = (hi << 12) | (mid << 6) | lo;
        assert(cp <= 0xffff) by (bit_vector)
            requires
                cp == (hi << 12) | (mid << 6) | lo && hi <= 0x0f && mid <= 0x3f && lo <= 0x3f,
        ;
        if cp < 0x800 {
            return None;
        }
        if 0xd800 <= cp && cp <= 0xdfff {
            return None;
        }
        match char_from_u32(cp) {
            Some(c) => Some((c, 3)),
            None => None,
        }
    } else if 0xf0 <= b0 && b0 <= 0xf7 {
        if len - pos < 4 {
            return None;
        }
        let b1 = bytes[pos + 1];
        let b2 = bytes[pos + 2];
        let b3 = bytes[pos + 3];
        proof {
            assert(rest[1] == b1 && rest[2] == b2 && rest[3] == b3);
        }
        if !(0x80 <= b1 && b1 <= 0xbf) || !(0x80 <= b2 && b2 <= 0xbf) || !(0x80 <= b3 && b3 <= 0xbf)
        {
            return None;
        }
        let hi: u32 = (b0 & 0x07) as u32;
        let m1: u32 = (b1 & 0x3f) as u32;
        let m2: u32 = (b2 & 0x3f) as u32;
        let lo: u32 = (b3 & 0x3f) as u32;
        assert(hi <= 0x07 && m1 <= 0x3f && m2 <= 0x3f && lo <= 0x3f) by (bit_vector)
            requires
                hi == (b0 & 0x07) as u32 && m1 == (b1 & 0x3f) as u32 && m2 == (b2 & 0x3f) as u32
                    && lo == (b3 & 0x3f) as u32,
        ;
        let cp: u32 = (hi << 18) | (m1 << 12) | (m2 << 6) | lo;
        assert(cp <= 0x1fffff) by (bit_vector)
            requires
                cp == (hi << 18) | (m1 << 12) | (m2 << 6) | lo && hi <= 0x07 && m1 <= 0x3f && m2
                    <= 0x3f && lo <= 0x3f,
        ;
        if cp < 0x10000 || cp > 0x10ffff {
            return None;
        }
        match char_from_u32(cp) {
            Some(c) => Some((c, 4)),
            None => None,
        }
    } else {
        None
    }
}

/// Splitter for separating a byte slice into characters.
pub struct CharSplitter<'a> {
    /// The input bytes.
    bytes: &'a [u8],
    /// Position of the next undecoded byte.
    pos: usize,
}

impl<'a> CharSplitter<'a> {
    /// The splitter's position never runs past the input.
    pub closed spec fn wf(self) -> bool {
        self.pos <= self.bytes@.len()
    }

    /// The input bytes the splitter was created over.
    pub closed spec fn input(self) -> Seq<u8> {
        self.bytes@
    }

    /// The bytes not yet decoded.
    pub closed spec fn remaining(self) -> Seq<u8> {
        self.bytes@.skip(self.pos as int)
    }

    /// Create a new char splitter over the given bytes.
    pub fn new(bytes: &'a [u8]) -> (r: Self)
        ensures
            r.wf(),
            r.input() == bytes@,
            r.remaining() == bytes@,
    {
        let r = CharSplitter { bytes, pos: 0 };
        proof {
            assert(r.remaining() =~= bytes@);
        }
        r
    }

    /// Read the next character.
    ///
    /// Returns `None` at the end of the input; returns the decoded first
    /// character of the remaining bytes, or `InvalidUtf8` when they do not
    /// begin with a well-formed scalar encoding.
    pub fn next_char(&mut self) -> (r: Option<Result<char, InvalidUtf8>>)
        requires
            old(self).wf(),
        ensures
            final(self).wf(),
            final(self).input() == old(self).input(),
            r is None <==> old(self).remaining().len() == 0,
            r is None ==> final(self).remaining() == old(self).remaining(),
            r == Some(Result::<char, InvalidUtf8>::Err(InvalidUtf8)) <==> old(
                self,
            ).remaining().len() > 0 && !valid_first_scalar(old(self).remaining()),
            r == Some(Result::<char, InvalidUtf8>::Err(InvalidUtf8)) ==> final(self).remaining()
                == old(self).remaining(),
            r matches Some(Result::<char, InvalidUtf8>::Ok(c)) ==> ({
                &&& valid_first_scalar(old(self).remaining())
                &&& c as u32 == decode_first_scalar(old(self).remaining())
                &&& final(self).remaining() == vstd::utf8::pop_first_scalar(
                    old(self).remaining(),
                )
            }),
    {
        if self.pos == self.bytes.len() {
            return None;
        }
        match decode_first_char(self.bytes, self.pos) {
            Some((c, n)) => {
                let ghost before = self.remaining();
                self.pos = self.pos + n;
                proof {
                    assert(self.remaining() =~= vstd::utf8::pop_first_scalar(before));
                }
                Some(Ok(c))
            },
            None => Some(Err(InvalidUtf8)),
        }
    }
}

} // verus!
